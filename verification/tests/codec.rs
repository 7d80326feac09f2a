use relay::action::{CodecError, ServerAction};

#[test]
fn encodes_join_server_action() {
    let action = ServerAction::Join {
        id: 0x12345678,
        name: b"Bill Preston".to_vec(),
    };
    let bytes = action.encode().expect("Failed to encode action");
    assert_eq!(
        bytes,
        b"\x03\x00\x00\x00\x78\x56\x34\x12\x0c\x00\x00\x00\x00\x00\x00\x00\x42\x69\x6C\x6C\x20\x50\x72\x65\x73\x74\x6F\x6E"
    );
}

#[test]
fn encodes_leave_server_action() {
    let action = ServerAction::Leave { id: 0x12345678 };
    let bytes = action.encode().expect("Failed to encode action");
    assert_eq!(bytes, b"\x04\x00\x00\x00\x78\x56\x34\x12");
}

#[test]
fn encodes_transform_server_action() {
    let mut expected_bytes: Vec<u8> = vec![
        0x05, 0x00, 0x00, 0x00, // Action enum
        0x78, 0x56, 0x34, 0x12, // Player ID
    ];
    // Position
    expected_bytes.extend(f32::to_le_bytes(12.34));
    expected_bytes.extend(f32::to_le_bytes(56.78));
    expected_bytes.extend(f32::to_le_bytes(90.12));
    // Velocity
    expected_bytes.extend(f32::to_le_bytes(345.53));
    expected_bytes.extend(f32::to_le_bytes(234.2344));
    expected_bytes.extend(f32::to_le_bytes(5454.444));
    // Rotation
    expected_bytes.extend(f32::to_le_bytes(-0.3));
    expected_bytes.extend(f32::to_le_bytes(0.6));
    expected_bytes.extend(f32::to_le_bytes(1.2));

    let action = ServerAction::Transform {
        id: 0x12345678,
        position: (f32::to_bits(12.34), f32::to_bits(56.78), f32::to_bits(90.12)),
        velocity: (f32::to_bits(345.53), f32::to_bits(234.2344), f32::to_bits(5454.444)),
        rotation: (f32::to_bits(-0.3), f32::to_bits(0.6), f32::to_bits(1.2)),
    };
    let actual_bytes = action.encode().expect("Failed to encode action");

    assert_eq!(expected_bytes, actual_bytes);
}

#[test]
fn decodes_noop_user_action() {
    let bytes: &[u8] = b"\x00\x00\x00\x00";
    let action = ServerAction::decode(bytes).unwrap();
    assert_eq!(action, ServerAction::Noop);
}

#[test]
fn decodes_login_user_action() {
    let bytes: &[u8] =
        b"\x01\x00\x00\x00\xAB\xCD\xEF\x82\x09\x00\x00\x00\x00\x00\x00\x00Ted Logan";
    let action = ServerAction::decode(bytes).unwrap();
    match action {
        ServerAction::Login { name, seed } => {
            assert_eq!(name, b"Ted Logan".to_vec());
            assert_eq!(seed, 0x82efcdab);
        }
        _ => panic!("Wrong user action"),
    }
}

#[test]
fn decodes_transform_user_action() {
    let mut bytes: Vec<u8> = vec![
        0x05, 0x00, 0x00, 0x00, // Action enum
        0x01, 0x23, 0x45, 0x67, // ID
    ];
    // Position
    bytes.extend(f32::to_le_bytes(12.34));
    bytes.extend(f32::to_le_bytes(55.33));
    bytes.extend(f32::to_le_bytes(765.432));
    // Velocity
    bytes.extend(f32::to_le_bytes(43.11));
    bytes.extend(f32::to_le_bytes(34.654));
    bytes.extend(f32::to_le_bytes(63.123));
    // Rotation
    bytes.extend(f32::to_le_bytes(62.23));
    bytes.extend(f32::to_le_bytes(77.77));
    bytes.extend(f32::to_le_bytes(0.123));

    assert_eq!(bytes.len(), 44);
    let action = ServerAction::decode(&bytes).expect("Failed to decode action");
    match action {
        ServerAction::Transform {
            id: _,
            position,
            velocity,
            rotation,
        } => {
            assert_eq!(position, (f32::to_bits(12.34), f32::to_bits(55.33), f32::to_bits(765.432)));
            assert_eq!(velocity, (f32::to_bits(43.11), f32::to_bits(34.654), f32::to_bits(63.123)));
            assert_eq!(rotation, (f32::to_bits(62.23), f32::to_bits(77.77), f32::to_bits(0.123)));
        }
        _ => panic!("Wrong user action"),
    }
}

fn round_trips(action: ServerAction) {
    let bytes = action.encode().expect("Failed to encode action");
    let back = ServerAction::decode(&bytes).expect("Failed to decode action");
    assert_eq!(action, back);
}

#[test]
fn round_trips_every_action_variant() {
    // Boundary transforms: zero, negative, and a subnormal bit pattern.
    let zero = f32::to_bits(0.0);
    let neg = f32::to_bits(-123.456);
    let subnormal: u32 = 1;
    round_trips(ServerAction::Noop);
    round_trips(ServerAction::Login {
        seed: u32::MAX,
        name: "Tëd – 世界 🌍".as_bytes().to_vec(),
    });
    round_trips(ServerAction::Login { seed: 0, name: Vec::new() });
    round_trips(ServerAction::Logout);
    round_trips(ServerAction::Join { id: 1, name: "Bïll 🎸".as_bytes().to_vec() });
    round_trips(ServerAction::Leave { id: 0xFFFF_FFFF });
    round_trips(ServerAction::Transform {
        id: 7,
        position: (zero, neg, subnormal),
        velocity: (neg, zero, subnormal),
        rotation: (subnormal, neg, zero),
    });
    round_trips(ServerAction::Spawn {
        id: 8,
        position: (zero, zero, zero),
        velocity: (neg, neg, neg),
        rotation: (subnormal, subnormal, subnormal),
        prefab: b"tree".to_vec(),
    });
    round_trips(ServerAction::Despawn { id: 9 });
    round_trips(ServerAction::Damage { id: 10, position: (neg, zero, subnormal) });
}

#[test]
fn rejects_oversized_buffer() {
    let bytes = vec![0u8; 1025];
    assert_eq!(ServerAction::decode(&bytes), Err(CodecError::Oversized));
    // Exactly at the ceiling the buffer is still parsed.
    let bytes = vec![0u8; 1024];
    assert_eq!(ServerAction::decode(&bytes), Ok(ServerAction::Noop));
}

#[test]
fn rejects_short_buffers_per_variant() {
    assert_eq!(ServerAction::decode(b""), Err(CodecError::Truncated));
    assert_eq!(ServerAction::decode(b"\x04\x00\x00"), Err(CodecError::Truncated));
    // Leave needs an id.
    assert_eq!(ServerAction::decode(b"\x04\x00\x00\x00\x78"), Err(CodecError::Truncated));
    // Login needs seed and name length.
    assert_eq!(
        ServerAction::decode(b"\x01\x00\x00\x00\xAB\xCD\xEF\x82\x09\x00"),
        Err(CodecError::Truncated)
    );
    // A name length pointing past the end of the buffer.
    assert_eq!(
        ServerAction::decode(b"\x01\x00\x00\x00\xAB\xCD\xEF\x82\x09\x00\x00\x00\x00\x00\x00\x00Ted"),
        Err(CodecError::Truncated)
    );
    // Transform needs the full 44 bytes.
    assert_eq!(
        ServerAction::decode(&[5u8, 0, 0, 0, 1, 2, 3, 4, 5, 6, 7, 8]),
        Err(CodecError::Truncated)
    );
}

#[test]
fn rejects_unknown_discriminant() {
    assert_eq!(ServerAction::decode(b"\x09\x00\x00\x00"), Err(CodecError::UnknownDiscriminant));
    assert_eq!(
        ServerAction::decode(b"\xFF\xFF\xFF\xFF\x01\x02"),
        Err(CodecError::UnknownDiscriminant)
    );
}

#[test]
fn tolerates_trailing_bytes() {
    assert_eq!(
        ServerAction::decode(b"\x00\x00\x00\x00rubbish"),
        Ok(ServerAction::Noop)
    );
    // The name takes exactly its declared length; what follows is ignored.
    let action =
        ServerAction::decode(b"\x01\x00\x00\x00\xAB\xCD\xEF\x82\x03\x00\x00\x00\x00\x00\x00\x00TedLogan")
            .unwrap();
    match action {
        ServerAction::Login { name, .. } => assert_eq!(name, b"Ted".to_vec()),
        _ => panic!("Wrong user action"),
    }
}
