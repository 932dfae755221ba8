use papercast::proto::{
    decode, encode, Message, ProtoError, Rect, RefreshHint, ServerHello, Update, UpdateRect,
    MAX_PAYLOAD, PROTO_VERSION, TAG_READY, TAG_SERVER_HELLO, TAG_UPDATE,
};

fn roundtrip(msg: &Message) {
    let bytes = encode(msg);
    let (decoded, consumed) = decode(&bytes).expect("decode ok").expect("a full frame");
    assert_eq!(&decoded, msg, "round-trip mismatch");
    assert_eq!(consumed, bytes.len(), "consumed the whole frame");
}

#[test]
fn roundtrip_server_hello() {
    roundtrip(&Message::ServerHello(ServerHello {
        proto_version: PROTO_VERSION,
        width: 3200,
        height: 2400,
        levels: 16,
    }));
}

#[test]
fn roundtrip_client_hello_and_ready() {
    roundtrip(&Message::ClientHello { proto_version: PROTO_VERSION });
    roundtrip(&Message::Ready);
}

#[test]
fn roundtrip_mode_changed() {
    roundtrip(&Message::ModeChanged("writing".to_string()));
    roundtrip(&Message::ModeChanged(String::new()));
}

#[test]
fn roundtrip_update_all_hints() {
    for hint in [RefreshHint::Auto, RefreshHint::Fast, RefreshHint::Quality] {
        // Mix a highly-compressible rect with a noisy one so compression and
        // the length bookkeeping are both exercised.
        let flat = vec![160u8; 64 * 64];
        let noisy: Vec<u8> =
            (0..40u32 * 30).map(|i| (i.wrapping_mul(2654435761) >> 24) as u8).collect();
        let msg = Message::Update(Update {
            refresh_hint: hint,
            rects: vec![
                UpdateRect { rect: Rect { x: 0, y: 0, width: 64, height: 64 }, gray8: flat },
                UpdateRect { rect: Rect { x: 100, y: 200, width: 40, height: 30 }, gray8: noisy },
            ],
        });
        roundtrip(&msg);
    }
}

#[test]
fn roundtrip_empty_update() {
    roundtrip(&Message::Update(Update { refresh_hint: RefreshHint::Auto, rects: vec![] }));
}

#[test]
fn decode_needs_more_bytes() {
    let bytes = encode(&Message::ServerHello(ServerHello {
        proto_version: 1,
        width: 10,
        height: 20,
        levels: 16,
    }));
    // Every strict prefix is incomplete → Ok(None), never an error.
    for k in 0..bytes.len() {
        assert_eq!(decode(&bytes[..k]), Ok(None), "prefix len {k} should need more");
    }
    assert!(matches!(decode(&bytes), Ok(Some(_))));
}

#[test]
fn decode_is_streaming() {
    // Two frames concatenated: decode drains exactly one at a time.
    let a = encode(&Message::Ready);
    let b = encode(&Message::ClientHello { proto_version: 1 });
    let mut buf = a.clone();
    buf.extend_from_slice(&b);

    let (m1, c1) = decode(&buf).unwrap().unwrap();
    assert_eq!(m1, Message::Ready);
    assert_eq!(c1, a.len());
    let (m2, c2) = decode(&buf[c1..]).unwrap().unwrap();
    assert_eq!(m2, Message::ClientHello { proto_version: 1 });
    assert_eq!(c2, b.len());
    assert_eq!(decode(&buf[c1 + c2..]), Ok(None));
}

#[test]
fn decode_rejects_unknown_type() {
    // payload_len 0, type 200.
    let buf = [0, 0, 0, 0, 200];
    assert_eq!(decode(&buf), Err(ProtoError::UnknownType(200)));
}

#[test]
fn decode_rejects_oversize_length() {
    let too_big = MAX_PAYLOAD + 1;
    let mut buf = too_big.to_be_bytes().to_vec();
    buf.push(TAG_UPDATE);
    assert_eq!(decode(&buf), Err(ProtoError::TooLarge(too_big)));
}

#[test]
fn decode_rejects_inconsistent_payload_length() {
    // Declare a 2-byte payload for a ServerHello, which needs 6. The frame
    // is "complete" by its own length, but the body runs short → Malformed.
    let mut buf = 2u32.to_be_bytes().to_vec();
    buf.push(TAG_SERVER_HELLO);
    buf.extend_from_slice(&[1, 2]);
    assert!(matches!(decode(&buf), Err(ProtoError::Malformed { .. })));
}

#[test]
fn decode_rejects_bad_refresh_hint() {
    // Update payload: hint=9 (invalid), n_rects=0.
    let payload = [9u8, 0, 0];
    let mut buf = (payload.len() as u32).to_be_bytes().to_vec();
    buf.push(TAG_UPDATE);
    buf.extend_from_slice(&payload);
    assert_eq!(decode(&buf), Err(ProtoError::BadRefreshHint(9)));
}

#[test]
fn decode_rejects_trailing_payload_bytes() {
    // Ready with a non-empty payload is malformed.
    let mut buf = 1u32.to_be_bytes().to_vec();
    buf.push(TAG_READY);
    buf.push(0xff);
    assert!(matches!(decode(&buf), Err(ProtoError::Malformed { .. })));
}

#[test]
fn ready_is_five_bytes_on_the_wire() {
    assert_eq!(encode(&Message::Ready), vec![0, 0, 0, 0, 129]);
    assert_eq!(encode(&Message::ClientHello { proto_version: 1 }), vec![0, 0, 0, 1, 128, 1]);
}

#[test]
fn server_hello_layout_is_big_endian() {
    let bytes = encode(&Message::ServerHello(ServerHello {
        proto_version: 1,
        width: 0x0102,
        height: 0x0304,
        levels: 16,
    }));
    assert_eq!(bytes, vec![0, 0, 0, 6, 1, 1, 1, 2, 3, 4, 16]);
}

#[test]
fn refresh_hint_wire_values() {
    assert_eq!(RefreshHint::Auto.to_u8(), 0);
    assert_eq!(RefreshHint::Fast.to_u8(), 1);
    assert_eq!(RefreshHint::Quality.to_u8(), 2);
    assert_eq!(RefreshHint::from_u8(2), Ok(RefreshHint::Quality));
    assert_eq!(RefreshHint::from_u8(3), Err(ProtoError::BadRefreshHint(3)));
}

#[test]
fn update_pixels_are_compressed_on_the_wire() {
    // A flat 64x64 rect must shrink well below its raw 4096 bytes.
    let msg = Message::Update(Update {
        refresh_hint: RefreshHint::Auto,
        rects: vec![UpdateRect {
            rect: Rect { x: 0, y: 0, width: 64, height: 64 },
            gray8: vec![7u8; 64 * 64],
        }],
    });
    let bytes = encode(&msg);
    assert!(bytes.len() < 1000, "encoded {} bytes", bytes.len());
}

#[test]
fn rect_size_mismatch_is_malformed() {
    // An update whose rect says 2x2 but whose pixels decompress to 3 bytes.
    let good = encode(&Message::Update(Update {
        refresh_hint: RefreshHint::Auto,
        rects: vec![UpdateRect { rect: Rect { x: 0, y: 0, width: 3, height: 1 }, gray8: vec![1, 2, 3] }],
    }));
    let mut bad = good.clone();
    // Frame header (5) + hint and count (3) + x, y, width (6): the height.
    bad[5 + 3 + 6] = 0;
    bad[5 + 3 + 7] = 2;
    assert!(decode(&good).is_ok());
    assert!(matches!(decode(&bad), Err(ProtoError::Malformed { .. })));
}

#[test]
fn compressed_rects_stay_within_the_zstd_bound() {
    // Poorly compressible pixels: a simple LCG.
    let mut x: u32 = 12345;
    let gray8: Vec<u8> = (0..1000)
        .map(|_| {
            x = x.wrapping_mul(1_103_515_245).wrapping_add(12_345);
            (x >> 16) as u8
        })
        .collect();
    let msg = Message::Update(Update {
        refresh_hint: RefreshHint::Auto,
        rects: vec![UpdateRect { rect: Rect { x: 0, y: 0, width: 40, height: 25 }, gray8 }],
    });
    let bytes = encode(&msg);
    let bound = 1000 + 1000 / 256 + (131_072 - 1000) / 2048;
    assert!(bytes.len() <= 5 + 3 + 12 + bound, "{} bytes", bytes.len());
    roundtrip(&msg);
}
