use pathquery::framing::{
    decode_all, deserialize_from_bytes, encode_record, read_len, serialize_all, DecodeError,
    Deserializable, EncodeError,
};
use pathquery::service::{serialize_to_bytes, Service};
use vstd::seq::Seq;

struct Text(String);

impl Deserializable for Text {
    // ghost trait item, never reached at runtime
    fn deserialized_as(_: Seq<u8>, _: Result<Self, DecodeError>) -> bool {
        unreachable!()
    }

    fn deserialize(bytes: Vec<u8>) -> Result<Self, DecodeError> {
        match String::from_utf8(bytes) {
            Ok(s) => Ok(Text(s)),
            Err(_) => Err(DecodeError::InvalidUtf8),
        }
    }
}

#[test]
fn test_deserialize() {
    let bytes: Vec<u8> = vec![72, 101, 108, 108, 111];
    let res = Text::deserialize(bytes).unwrap();
    assert_eq!(res.0, "Hello")
}

#[test]
fn read_len_is_big_endian() {
    let mut bytes: Vec<u8> = vec![1, 2, 9, 9];
    let n = read_len(&mut bytes);
    assert_eq!(n, 258);
    assert_eq!(bytes, vec![9, 9]);
}

#[test]
fn encode_prefixes_big_endian_length() {
    let rec = encode_record(&b"Hello".to_vec()).unwrap();
    assert_eq!(rec, vec![0, 5, 72, 101, 108, 108, 111]);
}

#[test]
fn encode_rejects_oversized_payload() {
    let long = vec![7u8; 65536];
    assert_eq!(encode_record(&long), Err(EncodeError::TooLong));
    let ok = vec![7u8; 65535];
    let rec = encode_record(&ok).unwrap();
    assert_eq!(rec.len(), 2 + 65535);
    assert_eq!(rec[0], 255);
    assert_eq!(rec[1], 255);
}

#[test]
fn round_trip_single_record() {
    let path = b"/some/where/deep.txt".to_vec();
    let rec = encode_record(&path).unwrap();
    let decoded = decode_all(&rec).unwrap();
    assert_eq!(decoded, vec![path]);
}

#[test]
fn round_trip_many_records() {
    let paths: Vec<Vec<u8>> = vec![b"/a".to_vec(), b"".to_vec(), b"/c/d".to_vec()];
    let stream = serialize_all(&paths).unwrap();
    assert_eq!(decode_all(&stream).unwrap(), paths);
}

#[test]
fn decode_empty_buffer_is_empty_batch() {
    assert_eq!(decode_all(&vec![]).unwrap(), Vec::<Vec<u8>>::new());
}

#[test]
fn decode_short_prefix_is_framing_error() {
    assert_eq!(decode_all(&vec![3]), Err(DecodeError::Truncated));
}

#[test]
fn decode_truncated_payload_is_framing_error() {
    // declared length 5, only 2 payload bytes follow
    assert_eq!(decode_all(&vec![0, 5, 1, 2]), Err(DecodeError::Truncated));
}

#[test]
fn deserialize_from_bytes_reads_one_record() {
    let mut bytes: Vec<u8> = vec![0, 5, 72, 101, 108, 108, 111, 0, 1, 33];
    let first: Text = deserialize_from_bytes(&mut bytes).unwrap();
    assert_eq!(first.0, "Hello");
    assert_eq!(bytes, vec![0, 1, 33]);
    let second: Text = deserialize_from_bytes(&mut bytes).unwrap();
    assert_eq!(second.0, "!");
    assert!(bytes.is_empty());
}

#[test]
fn deserialize_from_bytes_truncated_is_error_not_panic() {
    let mut bytes: Vec<u8> = vec![0, 5, 1, 2];
    let r: Result<Text, DecodeError> = deserialize_from_bytes(&mut bytes);
    assert_eq!(r.err(), Some(DecodeError::Truncated));
    assert_eq!(bytes, vec![0, 5, 1, 2]);
    let mut short: Vec<u8> = vec![9];
    let r2: Result<Text, DecodeError> = deserialize_from_bytes(&mut short);
    assert_eq!(r2.err(), Some(DecodeError::Truncated));
}

#[test]
fn deserialize_invalid_utf8_is_distinct_error() {
    let mut bytes: Vec<u8> = vec![0, 2, 0xff, 0xfe];
    let r: Result<Text, DecodeError> = deserialize_from_bytes(&mut bytes);
    assert_eq!(r.err(), Some(DecodeError::InvalidUtf8));
}

#[test]
fn round_trip_through_deserialize_from_bytes() {
    let s = Service::new(b"/r/a.txt".to_vec());
    let mut bytes = serialize_to_bytes(&s).unwrap();
    let back: Service = deserialize_from_bytes(&mut bytes).unwrap();
    assert_eq!(back.path, b"/r/a.txt".to_vec());
    assert!(bytes.is_empty());
}

#[test]
fn service_serializes_as_one_record() {
    let s = Service::new(b"/top/a.txt".to_vec());
    let rec = serialize_to_bytes(&s).unwrap();
    assert_eq!(decode_all(&rec).unwrap(), vec![b"/top/a.txt".to_vec()]);
}
