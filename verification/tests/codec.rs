use sirius::de::Deserializer;
use sirius::error::Error;
use sirius::ser::SeqSerializer;
use sirius::ser::Serializer;

#[test]
fn de_test_u64() {
    let data = vec![0x2a, 0x00, 0x00, 0x00, 0x00, 0x00, 0x00, 0x00];
    let mut de = Deserializer::new(data);
    assert_eq!(42, de.parse_u64().unwrap());
}

#[test]
fn test_string() {
    let data = vec![
        0x05, 0x00, 0x00, 0x00, 0x00, 0x00, 0x00, 0x00, b'h', b'e', b'l', b'l', b'o', 0x00, 0x00,
        0x00,
    ];
    let mut de = Deserializer::new(data);
    assert_eq!("hello", de.parse_string().unwrap());
}

#[test]
fn test_string_seq() {
    let data = vec![
        0x05, 0x00, 0x00, 0x00, 0x00, 0x00, 0x00, 0x00, 0x05, 0x00, 0x00, 0x00, 0x00, 0x00, 0x00,
        0x00, b'h', b'e', b'l', b'l', b'o', 0x00, 0x00, 0x00, 0x05, 0x00, 0x00, 0x00, 0x00, 0x00,
        0x00, 0x00, b'h', b'e', b'l', b'l', b'o', 0x00, 0x00, 0x00, 0x05, 0x00, 0x00, 0x00, 0x00,
        0x00, 0x00, 0x00, b'h', b'e', b'l', b'l', b'o', 0x00, 0x00, 0x00, 0x05, 0x00, 0x00, 0x00,
        0x00, 0x00, 0x00, 0x00, b'h', b'e', b'l', b'l', b'o', 0x00, 0x00, 0x00, 0x05, 0x00, 0x00,
        0x00, 0x00, 0x00, 0x00, 0x00, b'h', b'e', b'l', b'l', b'o', 0x00, 0x00, 0x00,
    ];
    let mut de = Deserializer::new(data);
    assert_eq!(vec!["hello"; 5], de.parse_string_seq().unwrap());
}

#[test]
fn test_some() {
    let data = vec![
        0x01, 0x00, 0x00, 0x00, 0x00, 0x00, 0x00, 0x00, 0x2a, 0x00, 0x00, 0x00, 0x00, 0x00, 0x00,
        0x00,
    ];
    let mut de = Deserializer::new(data);
    assert_eq!(Some(42), de.parse_opt_u64().unwrap());
}

#[test]
fn test_none() {
    let data = vec![0x00, 0x00, 0x00, 0x00, 0x00, 0x00, 0x00, 0x00];
    let mut de = Deserializer::new(data);
    assert_eq!(None, de.parse_opt_u64().unwrap());
}

#[test]
fn test_tuple() {
    let data = vec![
        0x01, 0x00, 0x00, 0x00, 0x00, 0x00, 0x00, 0x00, 0x02, 0x00, 0x00, 0x00, 0x00, 0x00, 0x00,
        0x00, 0x03, 0x00, 0x00, 0x00, 0x00, 0x00, 0x00, 0x00,
    ];
    let mut de = Deserializer::new(data);
    let triple = (
        de.parse_u64().unwrap(),
        de.parse_u64().unwrap(),
        de.parse_u64().unwrap(),
    );
    assert_eq!((1, 2, 3), triple);
}

#[test]
fn ser_test_u64() {}

#[test]
fn test_write_u64_le() {
    let mut ser = Serializer::new();
    ser.write_u64(42);
    assert_eq!(
        vec![0x2a, 0x00, 0x00, 0x00, 0x00, 0x00, 0x00, 0x00],
        ser.into_bytes()
    );
}

#[test]
fn test_write_bytes_padded() {
    let mut ser = Serializer::new();
    ser.write_bytes(b"hello");
    let out = ser.into_bytes();
    assert_eq!(0, out.len() % 8);
    assert_eq!(
        vec![
            0x05, 0x00, 0x00, 0x00, 0x00, 0x00, 0x00, 0x00, b'h', b'e', b'l', b'l', b'o', 0x00,
            0x00, 0x00
        ],
        out
    );
}

#[test]
fn test_write_bytes_no_pad_when_aligned() {
    let mut ser = Serializer::new();
    ser.write_bytes(b"12345678");
    let out = ser.into_bytes();
    assert_eq!(16, out.len());
    assert_eq!(0, out.len() % 8);
}

#[test]
fn test_string_round_trip() {
    let mut ser = Serializer::new();
    ser.write_str("snowflake");
    let mut de = Deserializer::new(ser.into_bytes());
    assert_eq!("snowflake", de.parse_string().unwrap());
    assert_eq!(0, de.remaining());
}

#[test]
fn test_string_seq_round_trip() {
    let mut ser = Serializer::new();
    let items = vec!["a".to_string(), "bb".to_string(), "".to_string()];
    ser.write_str_seq(&items);
    let mut de = Deserializer::new(ser.into_bytes());
    assert_eq!(items, de.parse_string_seq().unwrap());
}

#[test]
fn test_pair_seq_round_trip() {
    let mut ser = Serializer::new();
    let items = vec![
        ("k".to_string(), "v".to_string()),
        ("key2".to_string(), "value2".to_string()),
    ];
    ser.write_str_pair_seq(&items);
    let mut de = Deserializer::new(ser.into_bytes());
    assert_eq!(items, de.parse_string_pair_seq().unwrap());
}

#[test]
fn test_bool_canonical() {
    let mut ser = Serializer::new();
    ser.write_bool(true);
    ser.write_bool(false);
    let bytes = ser.into_bytes();
    assert_eq!(
        vec![
            0x01, 0x00, 0x00, 0x00, 0x00, 0x00, 0x00, 0x00, 0x00, 0x00, 0x00, 0x00, 0x00, 0x00,
            0x00, 0x00
        ],
        bytes
    );
    let mut de = Deserializer::new(bytes);
    assert_eq!(true, de.parse_bool().unwrap());
    assert_eq!(false, de.parse_bool().unwrap());
}

#[test]
fn test_end_of_stream() {
    let mut de = Deserializer::new(Vec::new());
    assert_eq!(Err(Error::EndOfStream), de.parse_u64());
}

#[test]
fn test_truncated() {
    let mut de = Deserializer::new(vec![0x01, 0x02, 0x03]);
    assert_eq!(Err(Error::Truncated), de.parse_u64());
    let mut short = Deserializer::new(vec![
        0x05, 0x00, 0x00, 0x00, 0x00, 0x00, 0x00, 0x00, b'h', b'i',
    ]);
    assert_eq!(Err(Error::Truncated), short.parse_bytes().map(|_| ()));
}

#[test]
fn test_encoding_fault() {
    let data = vec![
        0x02, 0x00, 0x00, 0x00, 0x00, 0x00, 0x00, 0x00, 0xff, 0xfe, 0x00, 0x00, 0x00, 0x00, 0x00,
        0x00,
    ];
    let mut de = Deserializer::new(data);
    assert_eq!(Err(Error::Encoding), de.parse_string().map(|_| ()));
    // the whole byte string, padding included, was consumed
    assert_eq!(0, de.remaining());
}

#[test]
fn test_encoding_arity() {
    let mut ser = Serializer::new();
    let mut run = SeqSerializer::new(&mut ser, 1);
    run.element_str(&mut ser, "only").unwrap();
    assert_eq!(
        Err(Error::EncodingArity),
        run.element_str(&mut ser, "extra")
    );
    let mut ser2 = Serializer::new();
    let run2 = SeqSerializer::new(&mut ser2, 2);
    assert_eq!(Err(Error::EncodingArity), run2.end());
}

#[test]
fn test_error_messages() {
    assert_eq!("end of stream", Error::EndOfStream.message());
    assert_eq!("unsupported operation", Error::Unsupported.message());
}
