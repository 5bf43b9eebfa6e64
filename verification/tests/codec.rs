use zenoh_wire::bytes::{ByteReader, ByteWriter};
use zenoh_wire::exts::{Destination, Timestamp, DEFAULT_QOS};
use zenoh_wire::push::{decode_push, encode_push, Mapping, Push, WireExpr};
use zenoh_wire::varint::{read_cond_buf, read_varint, varint_len, write_cond_buf, write_varint};

fn encode_to_vec(m: &Push) -> Vec<u8> {
    let mut w = ByteWriter::unbounded();
    encode_push(&mut w, m).expect("an unbounded writer accepts any message");
    w.into_vec()
}

fn decode_from(bytes: Vec<u8>) -> Result<Push, zenoh_wire::bytes::ReadError> {
    let mut r = ByteReader::new(bytes);
    decode_push(&mut r)
}

fn plain_push() -> Push {
    Push {
        wire_expr: WireExpr { scope: 0, suffix: Vec::new() },
        mapping: Mapping::Receiver,
        payload: Vec::new(),
        ext_qos: DEFAULT_QOS,
        ext_tstamp: None,
        ext_dst: Destination::Subscribers,
    }
}

#[test]
fn varint_exact_encodings() {
    let cases: Vec<(u64, Vec<u8>)> = vec![
        (0, vec![0x00]),
        (1, vec![0x01]),
        (127, vec![0x7f]),
        (128, vec![0x80, 0x01]),
        (300, vec![0xac, 0x02]),
        (16384, vec![0x80, 0x80, 0x01]),
        (
            u64::MAX,
            vec![0xff, 0xff, 0xff, 0xff, 0xff, 0xff, 0xff, 0xff, 0xff, 0x01],
        ),
    ];
    for (v, expected) in cases {
        let mut w = ByteWriter::unbounded();
        write_varint(&mut w, v).unwrap();
        let bytes = w.into_vec();
        assert_eq!(bytes, expected);
        assert_eq!(varint_len(v), expected.len());
        let mut r = ByteReader::new(bytes);
        assert_eq!(read_varint(&mut r).unwrap(), v);
        assert_eq!(r.remaining_len(), 0);
    }
}

#[test]
fn varint_rejects_truncation_and_overflow() {
    // ends mid-varint
    let mut r = ByteReader::new(vec![0x80]);
    assert!(read_varint(&mut r).is_err());
    // empty stream
    let mut r = ByteReader::new(vec![]);
    assert!(read_varint(&mut r).is_err());
    // ten continuation bytes: no terminator within the limit
    let mut r = ByteReader::new(vec![0x80; 10]);
    assert!(read_varint(&mut r).is_err());
    // the value would need a 65th bit
    let mut bytes = vec![0xff; 9];
    bytes.push(0x02);
    let mut r = ByteReader::new(bytes);
    assert!(read_varint(&mut r).is_err());
    // the same prefix with a final 0x01 is exactly u64::MAX
    let mut bytes = vec![0xff; 9];
    bytes.push(0x01);
    let mut r = ByteReader::new(bytes);
    assert_eq!(read_varint(&mut r).unwrap(), u64::MAX);
}

#[test]
fn varint_accepts_trailing_bytes() {
    let mut r = ByteReader::new(vec![0xac, 0x02, 0x63]);
    assert_eq!(read_varint(&mut r).unwrap(), 300);
    assert_eq!(r.remaining_len(), 1);
}

#[test]
fn writer_capacity_exhaustion_is_an_error() {
    let mut w = ByteWriter::with_capacity(2);
    assert!(encode_push(&mut w, &plain_push()).is_err());
    let mut w = ByteWriter::with_capacity(1);
    assert!(write_varint(&mut w, 300).is_err());
}

#[test]
fn suffix_and_sender_mapping_scenario() {
    // explicit suffix "a/b/c", Sender mapping, no extensions, payload [1,2,3]
    let m = Push {
        wire_expr: WireExpr { scope: 0, suffix: b"a/b/c".to_vec() },
        mapping: Mapping::Sender,
        payload: vec![1, 2, 3],
        ext_qos: DEFAULT_QOS,
        ext_tstamp: None,
        ext_dst: Destination::Subscribers,
    };
    let bytes = encode_to_vec(&m);
    // header: kind id 5, N and M set, Z clear
    assert_eq!(bytes[0], 5 + 32 + 64);
    assert_eq!(bytes[0] & 0x80, 0);
    assert_eq!(
        bytes,
        vec![0x65, 0x00, 0x05, 0x61, 0x2f, 0x62, 0x2f, 0x63, 0x03, 0x01, 0x02, 0x03]
    );
    let out = decode_from(bytes).unwrap();
    assert_eq!(out.mapping, Mapping::Sender);
    assert_eq!(out.wire_expr.suffix, b"a/b/c".to_vec());
    assert_eq!(out.wire_expr.scope, 0);
    assert_eq!(out.ext_qos, DEFAULT_QOS);
    assert!(out.ext_tstamp.is_none());
    assert_eq!(out.ext_dst, Destination::Subscribers);
    assert_eq!(out.payload, vec![1, 2, 3]);
}

#[test]
fn single_qos_extension_scenario() {
    // only a non-default QoS: Z set, one record with its continuation clear
    let m = Push {
        wire_expr: WireExpr { scope: 0, suffix: Vec::new() },
        mapping: Mapping::Receiver,
        payload: vec![9],
        ext_qos: 1,
        ext_tstamp: None,
        ext_dst: Destination::Subscribers,
    };
    let bytes = encode_to_vec(&m);
    assert_eq!(bytes[0], 5 + 128); // Z set, N and M clear
    // one extension record: header 0x21 (kind 1, varint body, no continuation)
    assert_eq!(bytes[2], 0x21);
    assert_eq!(bytes[2] & 0x80, 0);
    assert_eq!(bytes, vec![0x85, 0x00, 0x21, 0x01, 0x01, 0x09]);
    let out = decode_from(bytes).unwrap();
    assert_eq!(out.ext_qos, 1);
    assert!(out.ext_tstamp.is_none());
    assert_eq!(out.ext_dst, Destination::Subscribers);
    assert_eq!(out.payload, vec![9]);
}

#[test]
fn round_trip_with_every_extension() {
    let m = Push {
        wire_expr: WireExpr { scope: 300, suffix: b"sensor/temp".to_vec() },
        mapping: Mapping::Sender,
        payload: vec![0xde, 0xad, 0xbe, 0xef],
        ext_qos: 7,
        ext_tstamp: Some(Timestamp { time: 0x1122334455667788, id: vec![0xaa, 0xbb, 0xcc] }),
        ext_dst: Destination::Queryables,
    };
    let bytes = encode_to_vec(&m);
    assert_eq!(bytes[0], 5 + 32 + 64 + 128);
    let out = decode_from(bytes).unwrap();
    assert_eq!(out.wire_expr.scope, 300);
    assert_eq!(out.wire_expr.suffix, b"sensor/temp".to_vec());
    assert_eq!(out.mapping, Mapping::Sender);
    assert_eq!(out.ext_qos, 7);
    let ts = out.ext_tstamp.unwrap();
    assert_eq!(ts.time, 0x1122334455667788);
    assert_eq!(ts.id, vec![0xaa, 0xbb, 0xcc]);
    assert_eq!(out.ext_dst, Destination::Queryables);
    assert_eq!(out.payload, vec![0xde, 0xad, 0xbe, 0xef]);
}

#[test]
fn round_trip_ignores_trailing_bytes() {
    let m = plain_push();
    let mut bytes = encode_to_vec(&m);
    let encoded_len = bytes.len();
    bytes.extend_from_slice(&[0x77, 0x88]);
    let mut r = ByteReader::new(bytes);
    let out = decode_push(&mut r).unwrap();
    assert_eq!(out.payload, Vec::<u8>::new());
    assert_eq!(r.remaining_len(), 2);
    assert!(encoded_len >= 3);
}

#[test]
fn default_suppression() {
    // all optional fields at their defaults: no extension bytes, Z clear
    let m = plain_push();
    let bytes = encode_to_vec(&m);
    assert_eq!(bytes, vec![0x05, 0x00, 0x00]); // header, scope 0, payload len 0
    assert_eq!(bytes[0] & 0x80, 0);
    let out = decode_from(bytes).unwrap();
    assert_eq!(out.ext_qos, DEFAULT_QOS);
    assert!(out.ext_tstamp.is_none());
    assert_eq!(out.ext_dst, Destination::Subscribers);
}

#[test]
fn truncation_always_fails() {
    let m = Push {
        wire_expr: WireExpr { scope: 300, suffix: b"k/1".to_vec() },
        mapping: Mapping::Sender,
        payload: vec![1, 2, 3, 4, 5],
        ext_qos: 2,
        ext_tstamp: Some(Timestamp { time: 99, id: vec![7, 8] }),
        ext_dst: Destination::Queryables,
    };
    let bytes = encode_to_vec(&m);
    for cut in 0..bytes.len() {
        let truncated: Vec<u8> = bytes[..cut].to_vec();
        assert!(
            decode_from(truncated).is_err(),
            "a prefix of {} of {} bytes must not decode",
            cut,
            bytes.len()
        );
    }
    // the whole encoding still decodes
    assert!(decode_from(bytes).is_ok());
}

#[test]
fn unknown_extension_is_skipped() {
    // hand-built chain: QoS record, an unknown kind with a self-described
    // block body, then the destination record terminating the chain
    let bytes = vec![
        0x85, // header: Push, Z set
        0x00, // scope 0
        0xa1, 0x02, // QoS record, continuation set, value 2
        0xc9, 0x02, 0xaa, 0xbb, // unknown kind 9, block body of 2 bytes, continuation set
        0x03, // destination record, continuation clear
        0x01, 0x09, // payload: 1 byte
    ];
    let out = decode_from(bytes).unwrap();
    assert_eq!(out.ext_qos, 2);
    assert!(out.ext_tstamp.is_none());
    assert_eq!(out.ext_dst, Destination::Queryables);
    assert_eq!(out.payload, vec![9]);
}

#[test]
fn unknown_extension_kinds_of_every_shape() {
    // unit (kind 4), varint (kind 5) and block (kind 6) unknowns, then QoS
    let bytes = vec![
        0x85, 0x00, // header with Z, scope 0
        0x84, // unknown unit record, continuation set
        0xa5, 0xac, 0x02, // unknown varint record, continuation set
        0xc6, 0x01, 0xff, // unknown block record, continuation set
        0x21, 0x04, // QoS record, continuation clear, value 4
        0x00, // empty payload
    ];
    let out = decode_from(bytes).unwrap();
    assert_eq!(out.ext_qos, 4);
    assert!(out.ext_tstamp.is_none());
    assert_eq!(out.ext_dst, Destination::Subscribers);
}

#[test]
fn extension_order_is_free_for_the_decoder() {
    // destination first, then timestamp, then QoS: not the encoder's order
    let bytes = vec![
        0x85, 0x00, // header with Z, scope 0
        0x83, // destination record, continuation set
        0xc2, 0x02, 0x63, 0x07, // timestamp record: block [time 0x63, id [7]]
        0x21, 0x02, // QoS record, continuation clear, value 2
        0x00, // empty payload
    ];
    let out = decode_from(bytes).unwrap();
    assert_eq!(out.ext_qos, 2);
    let ts = out.ext_tstamp.unwrap();
    assert_eq!(ts.time, 0x63);
    assert_eq!(ts.id, vec![7]);
    assert_eq!(out.ext_dst, Destination::Queryables);
}

#[test]
fn wrong_kind_id_is_a_read_error() {
    // kind id 6 instead of Push's 5
    assert!(decode_from(vec![0x06, 0x00, 0x00]).is_err());
    // empty stream
    assert!(decode_from(vec![]).is_err());
}

#[test]
fn oversized_qos_value_is_a_read_error() {
    // QoS record whose varint value does not fit one byte
    let bytes = vec![0x85, 0x00, 0x21, 0xac, 0x02, 0x00];
    assert!(decode_from(bytes).is_err());
}

#[test]
fn invalid_extension_selector_is_a_read_error() {
    // selector 3 in an extension header is not a defined body encoding
    let bytes = vec![0x85, 0x00, 0x61, 0x00];
    assert!(decode_from(bytes).is_err());
}

#[test]
fn block_length_past_the_end_is_a_read_error() {
    // payload announces 5 bytes, only 2 follow
    let bytes = vec![0x05, 0x00, 0x05, 0x01, 0x02];
    assert!(decode_from(bytes).is_err());
}

#[test]
fn conditional_block_codec() {
    // condition true: a length-prefixed block; condition false: no bytes
    let mut w = ByteWriter::unbounded();
    write_cond_buf(&mut w, true, &vec![7, 8]).unwrap();
    write_cond_buf(&mut w, false, &vec![9, 9, 9]).unwrap();
    let bytes = w.into_vec();
    assert_eq!(bytes, vec![0x02, 0x07, 0x08]);
    let mut r = ByteReader::new(bytes);
    assert_eq!(read_cond_buf(&mut r, true).unwrap(), vec![7, 8]);
    assert_eq!(read_cond_buf(&mut r, false).unwrap(), Vec::<u8>::new());
    assert_eq!(r.remaining_len(), 0);
}
