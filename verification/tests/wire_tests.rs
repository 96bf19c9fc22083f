use imageshare::wire::{deserialize_message, is_serialized_message, serialize_message, DecodeError, ServerMessage};

fn message(sender: i32, client: &str, data: Vec<u8>, cur_leader: i32, msg_type: i32) -> ServerMessage {
    ServerMessage { sender, client: client.to_string(), data, cur_leader, msg_type }
}

fn bincode_bytes(m: &ServerMessage) -> Vec<u8> {
    bincode::serialize(&(m.sender, m.client.clone(), m.data.clone(), m.cur_leader, m.msg_type)).unwrap()
}

#[test]
fn serialize_matches_bincode() {
    let cases = vec![
        message(0, "", vec![], 0, 0),
        message(2, "127.0.0.1:1939", vec![1, 2, 3], 1, 3),
        message(-1, "héllo wörld ✓", vec![255; 300], i32::MIN, i32::MAX),
    ];
    for m in &cases {
        assert_eq!(serialize_message(m), bincode_bytes(m));
    }
}

#[test]
fn serialize_exact_layout() {
    let m = message(1, "ab", vec![9], 2, 3);
    assert_eq!(
        serialize_message(&m),
        vec![1, 0, 0, 0, 2, 0, 0, 0, 0, 0, 0, 0, b'a', b'b', 1, 0, 0, 0, 0, 0, 0, 0, 9, 2, 0, 0, 0, 3, 0, 0, 0]
    );
}

#[test]
fn deserialize_reads_bincode_in_padded_buffer() {
    let m = message(1, "10.0.0.2:8888", vec![7, 8, 9], 2, 4);
    let mut buf = bincode_bytes(&m);
    buf.extend(vec![0u8; 65507 - buf.len()]);
    let d = deserialize_message(&buf).unwrap();
    assert_eq!(d.sender, 1);
    assert_eq!(d.client, "10.0.0.2:8888");
    assert_eq!(d.data, vec![7, 8, 9]);
    assert_eq!(d.cur_leader, 2);
    assert_eq!(d.msg_type, 4);
    assert!(is_serialized_message(&buf));
    let theirs: (i32, String, Vec<u8>, i32, i32) = bincode::deserialize(&buf).unwrap();
    assert_eq!(theirs, (d.sender, d.client.clone(), d.data.clone(), d.cur_leader, d.msg_type));
}

#[test]
fn round_trip_with_tail() {
    let m = message(-7, "client ✓", vec![0, 1, 2, 3, 4], 42, 5);
    let mut bytes = serialize_message(&m);
    bytes.extend_from_slice(b"trailing garbage");
    let d = deserialize_message(&bytes).unwrap();
    assert_eq!(serialize_message(&d), serialize_message(&m));
}

#[test]
fn truncated_inputs() {
    let m = message(1, "abc", vec![1, 2], 0, 2);
    let bytes = serialize_message(&m);
    for cut in 0..bytes.len() {
        assert_eq!(deserialize_message(&bytes[..cut]).err(), Some(DecodeError::Truncated), "cut {}", cut);
        assert!(!is_serialized_message(&bytes[..cut]));
        let theirs: Result<(i32, String, Vec<u8>, i32, i32), _> = bincode::deserialize(&bytes[..cut]);
        assert!(theirs.is_err());
    }
    assert!(is_serialized_message(&bytes));
}

#[test]
fn huge_length_is_truncated() {
    let mut bytes = vec![0u8; 4];
    bytes.extend_from_slice(&u64::MAX.to_le_bytes());
    bytes.extend(vec![0u8; 64]);
    assert_eq!(deserialize_message(&bytes).err(), Some(DecodeError::Truncated));
}

#[test]
fn invalid_utf8_client() {
    let mut bytes = vec![0u8; 4];
    bytes.extend_from_slice(&2u64.to_le_bytes());
    bytes.extend_from_slice(&[0xc3, 0x28]);
    bytes.extend(vec![0u8; 16]);
    assert_eq!(deserialize_message(&bytes).err(), Some(DecodeError::InvalidUtf8));
    let theirs: Result<(i32, String, Vec<u8>, i32, i32), _> = bincode::deserialize(&bytes);
    assert!(theirs.is_err());
}

#[test]
fn text_datagrams_alone_are_not_messages() {
    assert!(!is_serialized_message(b"list"));
    assert!(!is_serialized_message(b"ping"));
}

#[test]
fn command_in_zeroed_buffer_reads_as_message() {
    let mut buf = b"list".to_vec();
    buf.extend(vec![0u8; 100]);
    assert!(is_serialized_message(&buf));
    let d = deserialize_message(&buf).unwrap();
    assert_eq!(d.sender, i32::from_le_bytes(*b"list"));
    assert_eq!(d.client, "");
    assert!(d.data.is_empty());
    let theirs: (i32, String, Vec<u8>, i32, i32) = bincode::deserialize(&buf).unwrap();
    assert_eq!(theirs, (d.sender, d.client.clone(), d.data.clone(), d.cur_leader, d.msg_type));
}
