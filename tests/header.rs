use dns_codec::{serialize, Deserializable, Deserializer, Header, CodecError};

#[test]
fn test_query_header_to_bytes() {
    let q_header = Header::new(0xb962, false, 0, false, false, true, false, 0, 1, 0, 0, 0);
    let encoded = serialize(&q_header).unwrap();

    assert_eq!(encoded.len(), 12);
    assert_eq!(
        encoded,
        [
            0xb9u8, 0x62u8, 0x01u8, 0x00u8, 0x00u8, 0x01u8, 0x00u8, 0x00u8, 0x00u8, 0x00u8,
            0x00u8, 0x00u8
        ]
    );
}

#[test]
fn test_bytes_to_query_header() {
    let bytes = [
        0xb9u8, 0x62u8, 0x01u8, 0x00u8, 0x00u8, 0x01u8, 0x00u8, 0x00u8, 0x00u8, 0x00u8, 0x00u8,
        0x00u8,
    ];
    let mut deserializer = Deserializer::new(&bytes);
    let q_header = Header::deserializable(&mut deserializer).unwrap();
    let number_size = deserializer.position();

    assert_eq!(number_size, 12);
    assert_eq!(q_header.id, 0xb962);
    assert_eq!(q_header.qr, false);
    assert_eq!(q_header.opcode, 0);
    assert_eq!(q_header.aa, false);
    assert_eq!(q_header.tc, false);
    assert_eq!(q_header.rd, true);
    assert_eq!(q_header.ra, false);
    assert_eq!(q_header.rcode, 0);
    assert_eq!(q_header.qdcount, 1);
    assert_eq!(q_header.ancount, 0);
    assert_eq!(q_header.nscount, 0);
    assert_eq!(q_header.arcount, 0);
}

#[test]
fn header_round_trip_all_flags() {
    let h = Header::new(0x1234, true, 0xf, true, true, false, true, 0x5, 2, 3, 4, 5);
    let bytes = serialize(&h).unwrap();
    assert_eq!(
        bytes,
        vec![0x12, 0x34, 0xfe, 0x85, 0x00, 0x02, 0x00, 0x03, 0x00, 0x04, 0x00, 0x05]
    );
    let mut d = Deserializer::new(&bytes);
    let back = Header::deserializable(&mut d).unwrap();
    assert_eq!(back, h);
}

#[test]
fn header_round_trip_each_field() {
    let headers = [
        Header::new(0, true, 0, false, false, false, false, 0, 0, 0, 0, 0),
        Header::new(0, false, 2, false, false, false, false, 0, 0, 0, 0, 0),
        Header::new(0, false, 0, true, false, false, false, 0, 0, 0, 0, 0),
        Header::new(0, false, 0, false, true, false, false, 0, 0, 0, 0, 0),
        Header::new(0, false, 0, false, false, false, true, 0, 0, 0, 0, 0),
        Header::new(0xffff, false, 0, false, false, false, false, 15, 0xffff, 1, 0xfffe, 7),
    ];
    for h in headers.iter() {
        let bytes = serialize(h).unwrap();
        let mut d = Deserializer::new(&bytes);
        assert_eq!(Header::deserializable(&mut d).unwrap(), *h);
        assert_eq!(d.position(), 12);
    }
}

#[test]
fn header_keeps_nonzero_reserved_bits() {
    // z = 0b101 in bits 6..4 of the flag word
    let bytes = [0x00, 0x01, 0x81, 0xd3, 0, 0, 0, 0, 0, 0, 0, 0];
    let mut d = Deserializer::new(&bytes);
    let h = Header::deserializable(&mut d).unwrap();
    assert_eq!(h.z, 0b101);
    assert!(h.qr);
    assert!(h.rd);
    assert!(h.ra);
    assert_eq!(h.rcode, 3);
    assert_eq!(h.opcode, 0);
}

#[test]
fn header_sends_reserved_bits_as_zero() {
    let mut h = Header::new(1, false, 0, false, false, false, false, 0, 0, 0, 0, 0);
    h.z = 0b111;
    let bytes = serialize(&h).unwrap();
    assert_eq!(bytes[2], 0);
    assert_eq!(bytes[3], 0);
}

#[test]
fn header_short_buffer_is_truncated() {
    let bytes = [0xb9u8, 0x62, 0x01, 0x00, 0x00, 0x01, 0x00, 0x00, 0x00, 0x00, 0x00];
    let mut d = Deserializer::new(&bytes);
    assert_eq!(Header::deserializable(&mut d), Err(CodecError::Truncated));
}
