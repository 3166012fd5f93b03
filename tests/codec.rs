use kvs::{
    decode_command, segment_number_of, sort_file_by_number, BufferReaderWithPosition,
    BufferWriterWithPosition, BuffferWriterWithPosition, Command, CommandMedaData, CommandMetaData,
    KVStoreError,
};

#[test]
fn encode_set_exact_bytes() {
    let bytes = Command::set("a".to_string(), "xy".to_string()).encode();
    let mut expected = vec![0x53];
    expected.extend_from_slice(&[1, 0, 0, 0, 0, 0, 0, 0]);
    expected.push(b'a');
    expected.extend_from_slice(&[2, 0, 0, 0, 0, 0, 0, 0]);
    expected.extend_from_slice(b"xy");
    assert_eq!(bytes, expected);
}

#[test]
fn encode_remove_exact_bytes() {
    let bytes = Command::remove("key".to_string()).encode();
    let mut expected = vec![0x52];
    expected.extend_from_slice(&[3, 0, 0, 0, 0, 0, 0, 0]);
    expected.extend_from_slice(b"key");
    assert_eq!(bytes, expected);
    assert_eq!(Command::rm("key".to_string()).encode(), bytes);
}

#[test]
fn encode_counts_utf8_bytes() {
    let bytes = Command::remove("é".to_string()).encode();
    assert_eq!(bytes.len(), 1 + 8 + 2);
    assert_eq!(bytes[1], 2);
}

#[test]
fn decode_round_trip_in_a_stream() {
    let mut data = Command::set("k1".to_string(), "v1".to_string()).encode();
    let first_len = data.len();
    data.extend(Command::remove("k1".to_string()).encode());
    let (first, end) = decode_command(&data, 0).unwrap();
    assert_eq!(end, first_len);
    match first {
        Command::SetValue(k, v) => {
            assert_eq!(k, "k1");
            assert_eq!(v, "v1");
        }
        Command::Remove(_) => panic!("expected a set record"),
    }
    let (second, end) = decode_command(&data, end).unwrap();
    assert_eq!(end, data.len());
    assert!(matches!(second, Command::Remove(ref k) if k == "k1"));
    assert!(matches!(decode_command(&data, data.len()), Err(KVStoreError::Serialization)));
}

#[test]
fn decode_rejects_short_length() {
    let mut data = vec![0x52];
    data.extend_from_slice(&[9, 0, 0, 0, 0, 0, 0, 0]);
    data.extend_from_slice(b"abc");
    assert!(matches!(decode_command(&data, 0), Err(KVStoreError::Serialization)));
}

#[test]
fn segment_numbers_from_names() {
    assert_eq!(segment_number_of("12.log"), Some(12));
    assert_eq!(segment_number_of("0.log"), Some(0));
    assert_eq!(segment_number_of("+7.log"), Some(7));
    assert_eq!(segment_number_of("007.log"), Some(7));
    assert_eq!(segment_number_of("18446744073709551615.log"), Some(u64::MAX));
    assert_eq!(segment_number_of("18446744073709551616.log"), None);
    assert_eq!(segment_number_of(".log"), None);
    assert_eq!(segment_number_of("+.log"), None);
    assert_eq!(segment_number_of("log"), None);
    assert_eq!(segment_number_of("12.txt"), None);
    assert_eq!(segment_number_of("1a.log"), None);
    assert_eq!(segment_number_of("-1.log"), None);
    assert_eq!(segment_number_of("é5.log"), None);
}

#[test]
fn sort_file_by_number_orders_and_skips() {
    let names: Vec<String> = ["10.log", "2.log", "notes.txt", "x.log", "1.log", "02.log", "3.log.bak"]
        .iter()
        .map(|s| s.to_string())
        .collect();
    assert_eq!(sort_file_by_number(&names), vec![1, 2, 10]);
    assert_eq!(sort_file_by_number(&Vec::new()), Vec::<u64>::new());
}

#[test]
fn writer_tracks_position() {
    let mut w = BufferWriterWithPosition::new(5);
    assert_eq!(w.position(), 5);
    w.write(&[1, 2, 3]);
    assert_eq!(w.position(), 8);
    w.write(&[]);
    assert_eq!(w.position(), 8);
    assert_eq!(w.flush(), vec![1, 2, 3]);
    assert_eq!(w.flush(), Vec::<u8>::new());
    assert_eq!(w.position(), 8);
    let w2: BuffferWriterWithPosition = BufferWriterWithPosition::new(0);
    assert_eq!(w2.position(), 0);
}

#[test]
fn reader_tracks_position() {
    let mut data = Command::set("a".to_string(), "b".to_string()).encode();
    data.extend(Command::remove("a".to_string()).encode());
    let mut r = BufferReaderWithPosition::new(data);
    assert_eq!(r.position(), 0);
    assert!(r.read_command().is_ok());
    assert_eq!(r.position(), 19);
    assert!(!r.is_at_end());
    assert!(matches!(r.read_command(), Ok(Command::Remove(_))));
    assert!(r.is_at_end());
    assert!(matches!(r.read_command(), Err(KVStoreError::Serialization)));
    assert_eq!(r.position(), 29);
    assert_eq!(r.seek(19), 19);
    assert!(matches!(r.read_command(), Ok(Command::Remove(_))));
}

#[test]
fn location_type_names() {
    let a = CommandMetaData { file_number: 1, offset: 2, length: 3 };
    let b: CommandMedaData = CommandMetaData { file_number: 1, offset: 2, length: 3 };
    assert_eq!(a, b);
}
