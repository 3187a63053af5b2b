use dns_codec::{
    build_query, deserialize, encode_domain, parse_message, parse_message_limited, serialize,
    CodecError,
    Deserializable, Deserializer, Header, Message, QueryType, Question, ResourceRecord,
    ResourceRecordType,
};

const QUERY: [u8; 29] = [
    0xb9u8, 0x62u8, 0x01u8, 0x00u8, 0x00u8, 0x01u8, 0x00u8, 0x00u8, 0x00u8, 0x00u8, 0x00u8,
    0x00u8, 0x07u8, 0x65u8, 0x78u8, 0x61u8, 0x6du8, 0x70u8, 0x6cu8, 0x65u8, 0x03u8, 0x63u8,
    0x6fu8, 0x6du8, 0x00u8, 0x00u8, 0x01u8, 0x00u8, 0x01u8,
];

#[test]
fn test_serialize() {
    let message = Message::new(0xb962, "example.com", QueryType::A);
    let encoded = serialize(&message).unwrap();

    assert_eq!(
        encoded,
        [
            0xb9u8, 0x62u8, 0x01u8, 0x00u8, 0x00u8, 0x01u8, 0x00u8, 0x00u8, 0x00u8, 0x00u8,
            0x00u8, 0x00u8, 0x07u8, 0x65u8, 0x78u8, 0x61u8, 0x6du8, 0x70u8, 0x6cu8, 0x65u8,
            0x03u8, 0x63u8, 0x6fu8, 0x6du8, 0x00u8, 0x00u8, 0x01u8, 0x00u8, 0x01u8
        ]
    )
}

#[test]
fn test_deserialize() {
    let encoded = [
        0xb9u8, 0x62u8, 0x01u8, 0x00u8, 0x00u8, 0x01u8, 0x00u8, 0x00u8, 0x00u8, 0x00u8, 0x00u8,
        0x00u8, 0x07u8, 0x65u8, 0x78u8, 0x61u8, 0x6du8, 0x70u8, 0x6cu8, 0x65u8, 0x03u8, 0x63u8,
        0x6fu8, 0x6du8, 0x00u8, 0x00u8, 0x01u8, 0x00u8, 0x01u8,
    ];
    let message: Message = deserialize(&encoded).unwrap();

    assert_eq!(
        message.questions,
        vec![Question::new("example.com", QueryType::A)]
    );
    assert_eq!(
        message.header,
        Header::new(0xb962, false, 0, false, false, true, false, 0, 1, 0, 0, 0)
    )
}

#[test]
fn test_query_question_to_bytes() {
    let q_question = Question::new("example.com", QueryType::A);
    let encoded = serialize(&q_question).unwrap();

    assert_eq!(
        encoded,
        [
            0x07u8, 0x65u8, 0x78u8, 0x61u8, 0x6du8, 0x70u8, 0x6cu8, 0x65u8, 0x03u8, 0x63u8,
            0x6fu8, 0x6du8, 0x00u8, 0x00u8, 0x01u8, 0x00u8, 0x01u8
        ]
    )
}

#[test]
fn question_from_bytes() {
    let bytes = [
        0x07u8, 0x65, 0x78, 0x61, 0x6d, 0x70, 0x6c, 0x65, 0x03, 0x63, 0x6f, 0x6d, 0x00, 0x00,
        0x01, 0x00, 0x01,
    ];
    let mut d = Deserializer::new(&bytes);
    let q = Question::deserializable(&mut d).unwrap();
    assert_eq!(q.qname, "example.com");
    assert_eq!(q.qtype, ResourceRecordType::A);
    assert_eq!(q.qclass, 1);
    assert_eq!(d.position(), 17);
}

#[test]
fn question_with_unknown_type_keeps_code() {
    let mut bytes = encode_domain("example.com").unwrap();
    bytes.extend_from_slice(&[0x00, 0x1c, 0x00, 0x01]);
    let mut d = Deserializer::new(&bytes);
    let q = Question::deserializable(&mut d).unwrap();
    assert_eq!(q.qtype, ResourceRecordType::Unknown(28));
    assert_eq!(serialize(&q).unwrap(), bytes);
}

#[test]
fn build_query_matches_message_encoding() {
    assert_eq!(build_query(0xb962, "example.com", QueryType::A).unwrap(), QUERY.to_vec());
    let ns = build_query(1, "a", QueryType::NS).unwrap();
    assert_eq!(ns, vec![0, 1, 1, 0, 0, 1, 0, 0, 0, 0, 0, 0, 1, b'a', 0, 0, 2, 0, 1]);
    let long = format!("{}.com", "y".repeat(70));
    assert_eq!(build_query(1, &long, QueryType::A), Err(CodecError::LabelTooLong));
}

fn a_record_response() -> Vec<u8> {
    let mut bytes = vec![
        0xb9, 0x62, 0x81, 0x80, 0x00, 0x01, 0x00, 0x02, 0x00, 0x00, 0x00, 0x01,
    ];
    bytes.extend_from_slice(&QUERY[12..]);
    // answer: a CNAME by pointer to the question name, rdata a pointer too
    bytes.extend_from_slice(&[0xc0, 0x0c, 0x00, 0x05, 0x00, 0x01, 0x00, 0x00, 0x0e, 0x10, 0x00, 0x06]);
    bytes.extend_from_slice(&[3, b'w', b'w', b'w', 0xc0, 0x0c]);
    // answer: an A record for the name at offset 0x0c
    bytes.extend_from_slice(&[0xc0, 0x0c, 0x00, 0x01, 0x00, 0x01, 0x00, 0x01, 0x51, 0x80, 0x00, 0x04]);
    bytes.extend_from_slice(&[0x5d, 0xb8, 0xd8, 0x22]);
    // additional: a TXT record with text rdata
    bytes.extend_from_slice(&[0x00, 0x00, 0x10, 0x00, 0x01, 0x00, 0x00, 0x00, 0x3c, 0x00, 0x02]);
    bytes.extend_from_slice(b"hi");
    bytes
}

#[test]
fn parse_response_with_records() {
    let bytes = a_record_response();
    let m = parse_message(&bytes).unwrap();
    assert!(m.header.qr);
    assert!(m.header.ra);
    assert_eq!(m.questions.len(), 1);
    let answers = m.get_answers();
    assert_eq!(answers.len(), 2);
    assert_eq!(answers[0].get_name(), "example.com");
    assert_eq!(answers[0].get_type_name(), "CNAME");
    assert_eq!(answers[0].get_rdata(), "www.example.com");
    assert_eq!(answers[0].get_ttl(), 3600);
    assert_eq!(answers[1].get_type_name(), "A");
    assert_eq!(answers[1].get_rdata(), "93.184.216.34");
    assert_eq!(answers[1].get_ttl(), 86400);
    assert_eq!(answers[1].get_rdlength(), 4);
    assert_eq!(m.authorities.len(), 0);
    assert_eq!(m.additionals.len(), 1);
    assert_eq!(m.additionals[0].get_name(), "");
    assert_eq!(m.additionals[0].get_type(), ResourceRecordType::TXT);
    assert_eq!(m.additionals[0].get_rdata(), "hi");
    assert_eq!(m.additionals[0].get_class(), 1);
}

#[test]
fn a_record_rdata_is_dotted_decimal() {
    let bytes = [
        0x00u8, 0x00, 0x01, 0x00, 0x01, 0x00, 0x00, 0x00, 0x3c, 0x00, 0x04, 0x5d, 0xb8, 0xd8,
        0x22,
    ];
    let mut d = Deserializer::new(&bytes);
    let r = ResourceRecord::deserializable(&mut d).unwrap();
    assert_eq!(r.get_rdata(), "93.184.216.34");
    assert_eq!(d.position(), bytes.len());
}

#[test]
fn a_record_rdata_edge_values() {
    let bytes = [0x00u8, 0x00, 0x01, 0x00, 0x01, 0x00, 0x00, 0x00, 0x00, 0x00, 0x04, 0, 9, 10, 255];
    let mut d = Deserializer::new(&bytes);
    let r = ResourceRecord::deserializable(&mut d).unwrap();
    assert_eq!(r.get_rdata(), "0.9.10.255");
}

#[test]
fn ns_rdata_is_not_bounded_by_rdlength() {
    let mut bytes = encode_domain("example.com").unwrap();
    // rdlength says 2, but the name runs past it until its terminator
    bytes.extend_from_slice(&[0xc0, 0x00, 0x00, 0x02, 0x00, 0x01, 0x00, 0x00, 0x00, 0x10, 0x00, 0x02]);
    bytes.extend_from_slice(&[2, b'n', b's', 0xc0, 0x00]);
    let mut d = Deserializer::new(&bytes);
    d.reset_cursor(13).unwrap();
    let r = ResourceRecord::deserializable(&mut d).unwrap();
    assert_eq!(r.get_type_name(), "NS");
    assert_eq!(r.get_rdata(), "ns.example.com");
    assert_eq!(d.position(), bytes.len());
}

#[test]
fn unknown_record_type_is_kept() {
    let bytes = [0x00u8, 0x01, 0x2c, 0x00, 0x01, 0x00, 0x00, 0x00, 0x00, 0x00, 0x01, 0x41];
    let mut d = Deserializer::new(&bytes);
    let r = ResourceRecord::deserializable(&mut d).unwrap();
    assert_eq!(r.get_type(), ResourceRecordType::Unknown(300));
    assert_eq!(r.get_type_name(), "UNKNOWN");
    assert_eq!(r.get_rdata(), "A");
}

#[test]
fn invalid_text_rdata_is_decoded_lossily() {
    let bytes = [0x00u8, 0x00, 0x10, 0x00, 0x01, 0x00, 0x00, 0x00, 0x00, 0x00, 0x03, b'o', 0xff, b'k'];
    let mut d = Deserializer::new(&bytes);
    let r = ResourceRecord::deserializable(&mut d).unwrap();
    assert_eq!(r.get_rdata(), "o\u{fffd}k");
}

#[test]
fn record_rdata_past_end_is_truncated() {
    let bytes = [0x00u8, 0x00, 0x01, 0x00, 0x01, 0x00, 0x00, 0x00, 0x00, 0x00, 0x04, 1, 2, 3];
    let mut d = Deserializer::new(&bytes);
    assert_eq!(ResourceRecord::deserializable(&mut d), Err(CodecError::Truncated));
}

#[test]
fn record_encoding() {
    let r = ResourceRecord::new(
        "a.b".to_string(),
        ResourceRecordType::TXT,
        1,
        0x01020304,
        2,
        "hi".to_string(),
    );
    assert_eq!(
        serialize(&r).unwrap(),
        vec![1, b'a', 1, b'b', 0, 0, 16, 0, 1, 1, 2, 3, 4, 0, 2, b'h', b'i']
    );
    let bytes = serialize(&r).unwrap();
    let mut d = Deserializer::new(&bytes);
    assert_eq!(ResourceRecord::deserializable(&mut d).unwrap(), r);
}

#[test]
fn message_encodes_every_section_in_order() {
    let mut m = Message::new(7, "a", QueryType::CNAME);
    let rec = |t: &str| ResourceRecord::new("b".to_string(), ResourceRecordType::TXT, 1, 0, 1, t.to_string());
    m.answers.push(rec("x"));
    m.authorities.push(rec("y"));
    m.additionals.push(rec("z"));
    m.header = Header::new(7, true, 0, false, false, true, true, 0, 1, 1, 1, 1);
    let bytes = serialize(&m).unwrap();
    let back = parse_message(&bytes).unwrap();
    assert_eq!(back, m);
}

#[test]
fn truncated_messages_fail_as_truncated() {
    let bytes = a_record_response();
    for cut in 0..bytes.len() {
        assert_eq!(parse_message(&bytes[..cut]), Err(CodecError::Truncated), "cut at {}", cut);
    }
    for cut in 0..QUERY.len() {
        assert_eq!(parse_message(&QUERY[..cut]), Err(CodecError::Truncated), "cut at {}", cut);
    }
}

#[test]
fn forward_pointer_cut_off_is_out_of_range() {
    // the question name points forward to a name placed after it
    let mut bytes = vec![0, 1, 0, 0, 0, 1, 0, 0, 0, 0, 0, 0];
    bytes.extend_from_slice(&[0xc0, 0x12, 0x00, 0x01]);
    bytes.extend_from_slice(&[0x00, 0x01]);
    bytes.extend_from_slice(&[1, b'f', 0]);
    let m = parse_message(&bytes).unwrap();
    assert_eq!(m.questions[0].qname, "f");
    assert_eq!(parse_message(&bytes[..18]), Err(CodecError::OutOfRange));
}

#[test]
fn record_type_codes() {
    assert_eq!(ResourceRecordType::from(5u16), ResourceRecordType::CNAME);
    assert_eq!(ResourceRecordType::from_code(16), ResourceRecordType::TXT);
    assert_eq!(ResourceRecordType::from_code(0), ResourceRecordType::Unknown(0));
    assert_eq!(ResourceRecordType::from_code(17), ResourceRecordType::Unknown(17));
    for code in 0..40u16 {
        assert_eq!(ResourceRecordType::from_code(code).code(), code);
    }
    assert_eq!(ResourceRecordType::MX.name(), "MX");
    assert_eq!(ResourceRecordType::Unknown(99).name(), "UNKNOWN");
}

#[test]
fn question_new_uses_internet_class() {
    let q = Question::new("example.org", QueryType::NS);
    assert_eq!(q.qname, "example.org");
    assert_eq!(q.qtype, ResourceRecordType::NS);
    assert_eq!(q.qclass, 1);
    let m = Message::new(9, "example.org", QueryType::CNAME);
    assert_eq!(m.header, Header::new(9, false, 0, false, false, true, false, 0, 1, 0, 0, 0));
    assert_eq!(m.questions[0].qtype, ResourceRecordType::CNAME);
    assert!(m.get_answers().is_empty());
}

#[test]
fn unknown_type_with_a_known_code_goes_by_its_code() {
    assert_eq!(ResourceRecordType::Unknown(5).name(), "CNAME");
    assert_eq!(ResourceRecordType::Unknown(5).canonical(), ResourceRecordType::CNAME);
    assert_eq!(ResourceRecordType::Unknown(300).canonical(), ResourceRecordType::Unknown(300));
    let r = ResourceRecord::new(
        "a".to_string(),
        ResourceRecordType::Unknown(1),
        1,
        0,
        0,
        String::new(),
    );
    assert_eq!(r.get_type(), ResourceRecordType::A);
    assert_eq!(r.get_type_name(), "A");
    let bytes = serialize(&r).unwrap();
    let mut d = Deserializer::new(&bytes);
    assert_eq!(ResourceRecord::deserializable(&mut d).unwrap(), r);
}

#[test]
fn pointer_limit_reaches_every_section() {
    let bytes = a_record_response();
    // every name in this response follows a single pointer at most
    assert!(parse_message_limited(&bytes, 0).is_ok());
    let mut chained = vec![0u8, 1, 0, 0, 0, 1, 0, 0, 0, 0, 0, 0];
    chained.extend_from_slice(&[1, b'q', 0, 0, 1, 0, 1]);
    // a question whose name is a pointer to a pointer to the first name
    chained[5] = 3;
    chained.extend_from_slice(&[0xc0, 0x0c, 0, 1, 0, 1]);
    chained.extend_from_slice(&[0xc0, 0x13, 0, 1, 0, 1]);
    assert_eq!(parse_message_limited(&chained, 0), Err(CodecError::TooManyPointers));
    let m = parse_message_limited(&chained, 1).unwrap();
    assert_eq!(m.questions[2].qname, "q");
    assert_eq!(parse_message(&chained).unwrap(), m);
}
