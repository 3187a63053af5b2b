use dns_codec::{
    decode_domain, decode_domain_limited, encode_domain, encode_domain_limited, CodecError,
    Deserializer, Question, MAX_LABEL_LEN,
};

#[test]
fn main_test_encode_domain() {
    let encoded = encode_domain("example.com").unwrap();
    assert_eq!(
        encoded,
        [
            0x07u8, 0x65u8, 0x78u8, 0x61u8, 0x6du8, 0x70u8, 0x6cu8, 0x65u8, 0x03u8, 0x63u8,
            0x6fu8, 0x6du8, 0x00u8
        ]
    )
}

#[test]
fn query_test_encode_domain() {
    let encoded = Question::encode_domain("example.com").unwrap();
    assert_eq!(
        encoded,
        [
            0x07u8, 0x65u8, 0x78u8, 0x61u8, 0x6du8, 0x70u8, 0x6cu8, 0x65u8, 0x03u8, 0x63u8,
            0x6fu8, 0x6du8, 0x00u8
        ]
    )
}

#[test]
fn encode_skips_empty_parts() {
    assert_eq!(encode_domain("a..b.").unwrap(), vec![1, b'a', 1, b'b', 0]);
    assert_eq!(encode_domain("").unwrap(), vec![0]);
    assert_eq!(encode_domain(".").unwrap(), vec![0]);
}

#[test]
fn encode_label_of_63_bytes_is_accepted() {
    let label = "x".repeat(63);
    let encoded = encode_domain(&label).unwrap();
    assert_eq!(encoded.len(), 65);
    assert_eq!(encoded[0], 63);
}

#[test]
fn encode_label_of_64_bytes_is_refused() {
    let name = format!("www.{}.com", "x".repeat(64));
    assert_eq!(encode_domain(&name), Err(CodecError::LabelTooLong));
}

#[test]
fn encode_counts_bytes_not_chars() {
    // "é" is two bytes in UTF-8
    let name = "é".repeat(32);
    assert_eq!(encode_domain(&name), Err(CodecError::LabelTooLong));
    let ok = encode_domain("é.x").unwrap();
    assert_eq!(ok, vec![2, 0xc3, 0xa9, 1, b'x', 0]);
}

#[test]
fn name_round_trip() {
    for name in ["example.com", "a.b.c.d", "", "xn--bcher-kva.example", "é.日本"] {
        let bytes = encode_domain(name).unwrap();
        let mut d = Deserializer::new(&bytes);
        assert_eq!(decode_domain(&mut d, 0).unwrap(), name);
        assert_eq!(d.position(), bytes.len());
    }
}

#[test]
fn decode_follows_pointer_to_earlier_name() {
    let mut buf = encode_domain("example.com").unwrap();
    let first = buf.len();
    // "www" then a pointer to offset 0
    buf.extend_from_slice(&[3, b'w', b'w', b'w', 0xc0, 0x00]);
    // a bare pointer to offset 0
    let bare = buf.len();
    buf.extend_from_slice(&[0xc0, 0x00, 0xaa]);

    let mut d = Deserializer::new(&buf);
    assert_eq!(decode_domain(&mut d, 0).unwrap(), "example.com");
    assert_eq!(d.position(), first);
    assert_eq!(decode_domain(&mut d, 0).unwrap(), "www.example.com");
    assert_eq!(d.position(), bare);
    assert_eq!(decode_domain(&mut d, 0).unwrap(), "example.com");
    assert_eq!(d.position(), bare + 2);
}

#[test]
fn decode_pointer_with_high_offset_bits() {
    let mut buf = vec![0u8; 0x105];
    let target = 0x100;
    buf[target] = 1;
    buf[target + 1] = b'z';
    buf[target + 2] = 0;
    buf[0] = 0xc1;
    buf[1] = 0x00;
    let mut d = Deserializer::new(&buf);
    assert_eq!(decode_domain(&mut d, 0).unwrap(), "z");
    assert_eq!(d.position(), 2);
}

#[test]
fn pointer_at_end_of_buffer() {
    let buf = [1, b'a', 0, 0xc0, 0x00];
    let mut d = Deserializer::new(&buf);
    d.reset_cursor(3).unwrap();
    assert_eq!(decode_domain(&mut d, 0).unwrap(), "a");
    assert_eq!(d.position(), 5);
}

#[test]
fn self_pointer_is_refused() {
    let buf = [0xc0u8, 0x00];
    let mut d = Deserializer::new(&buf);
    assert_eq!(decode_domain(&mut d, 0), Err(CodecError::TooManyPointers));
}

#[test]
fn two_pointer_cycle_is_refused() {
    let buf = [0xc0u8, 0x02, 0xc0, 0x00];
    let mut d = Deserializer::new(&buf);
    assert_eq!(decode_domain(&mut d, 0), Err(CodecError::TooManyPointers));
}

#[test]
fn pointer_limit_is_configurable() {
    // a chain of three pointers ending at the name "a"
    let buf = [1u8, b'a', 0, 0xc0, 0x00, 0xc0, 0x03, 0xc0, 0x05];
    let mut d = Deserializer::new(&buf);
    d.reset_cursor(7).unwrap();
    assert_eq!(decode_domain_limited(&mut d, 0, 1), Err(CodecError::TooManyPointers));
    let mut d = Deserializer::new(&buf);
    d.reset_cursor(7).unwrap();
    assert_eq!(decode_domain_limited(&mut d, 0, 2).unwrap(), "a");
    let mut d = Deserializer::new(&buf);
    d.reset_cursor(7).unwrap();
    assert_eq!(decode_domain_limited(&mut d, 3, 2), Err(CodecError::TooManyPointers));
}

#[test]
fn pointer_past_end_is_out_of_range() {
    let buf = [0xc0u8, 0x09];
    let mut d = Deserializer::new(&buf);
    assert_eq!(decode_domain(&mut d, 0), Err(CodecError::OutOfRange));
}

#[test]
fn truncated_names() {
    let full = encode_domain("example.com").unwrap();
    for cut in 0..full.len() {
        let mut d = Deserializer::new(&full[..cut]);
        assert_eq!(decode_domain(&mut d, 0), Err(CodecError::Truncated), "cut at {}", cut);
    }
    let half_pointer = [0xc0u8];
    let mut d = Deserializer::new(&half_pointer);
    assert_eq!(decode_domain(&mut d, 0), Err(CodecError::Truncated));
}

#[test]
fn invalid_utf8_label_is_refused() {
    let buf = [2u8, 0xff, 0xfe, 0];
    let mut d = Deserializer::new(&buf);
    assert_eq!(decode_domain(&mut d, 0), Err(CodecError::InvalidLabel));
}

fn chain_of_pointers(n: usize) -> (Vec<u8>, usize) {
    let mut buf = vec![1u8, b'a', 0];
    let mut target = 0usize;
    for _ in 0..n {
        let here = buf.len();
        buf.push(0xc0 | (target >> 8) as u8);
        buf.push((target & 0xff) as u8);
        target = here;
    }
    (buf, target)
}

#[test]
fn chain_within_default_bound_is_followed() {
    let (buf, start) = chain_of_pointers(127);
    let mut d = Deserializer::new(&buf);
    d.reset_cursor(start).unwrap();
    assert_eq!(decode_domain(&mut d, 0).unwrap(), "a");
    assert_eq!(d.position(), start + 2);
}

#[test]
fn chain_past_default_bound_is_refused() {
    let (buf, start) = chain_of_pointers(128);
    let mut d = Deserializer::new(&buf);
    d.reset_cursor(start).unwrap();
    assert_eq!(decode_domain(&mut d, 0), Err(CodecError::TooManyPointers));
}

#[test]
fn label_limit_is_configurable() {
    assert_eq!(encode_domain_limited("abc.de", 3).unwrap(), vec![3, b'a', b'b', b'c', 2, b'd', b'e', 0]);
    assert_eq!(encode_domain_limited("abc.de", 2), Err(CodecError::LabelTooLong));
    assert_eq!(encode_domain_limited("", 0).unwrap(), vec![0]);
    assert_eq!(encode_domain_limited("a", 0), Err(CodecError::LabelTooLong));
    assert_eq!(MAX_LABEL_LEN, 63);
}
