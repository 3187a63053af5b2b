use dns_codec::{CodecError, Deserializable, Deserializer, Serializer};

#[test]
fn read_moves_one_byte() {
    let bytes = [1u8, 2];
    let mut d = Deserializer::new(&bytes);
    assert_eq!(d.read(), Ok(1));
    assert_eq!(d.read(), Ok(2));
    assert_eq!(d.read(), Err(CodecError::Truncated));
    assert_eq!(d.position(), 2);
}

#[test]
fn read_slice3_reads_exactly() {
    let bytes = [1u8, 2, 3, 4];
    let mut d = Deserializer::new(&bytes);
    assert_eq!(d.read_slice3(3), Ok(vec![1, 2, 3]));
    assert_eq!(d.read_slice3(2), Err(CodecError::Truncated));
    assert_eq!(d.position(), 3);
    assert_eq!(d.read_slice3(1), Ok(vec![4]));
    assert_eq!(d.read_slice3(0), Ok(vec![]));
}

#[test]
fn read_slice2_does_not_clamp() {
    let bytes = [1u8, 2, 3];
    let mut d = Deserializer::new(&bytes);
    let mut buf = [9u8; 2];
    assert_eq!(d.read_slice2(&mut buf), Ok(()));
    assert_eq!(buf, [1, 2]);
    assert_eq!(d.read_slice2(&mut buf), Err(CodecError::Truncated));
    assert_eq!(buf, [1, 2]);
    assert_eq!(d.position(), 2);
}

#[test]
fn read_slice_const_array() {
    let bytes = [1u8, 2, 3, 4, 5];
    let mut d = Deserializer::new(&bytes);
    assert_eq!(d.read_slice::<4>(), Ok([1, 2, 3, 4]));
    assert_eq!(d.read_slice::<2>(), Err(CodecError::Truncated));
    assert_eq!(d.read_slice::<1>(), Ok([5]));
}

#[test]
fn reset_cursor_jumps_and_returns_old_position() {
    let bytes = [1u8, 2, 3];
    let mut d = Deserializer::new(&bytes);
    d.read().unwrap();
    assert_eq!(d.reset_cursor(2), Ok(1));
    assert_eq!(d.read(), Ok(3));
    assert_eq!(d.reset_cursor(3), Err(CodecError::OutOfRange));
    assert_eq!(d.position(), 3);
    assert_eq!(d.peek_bytes(), &[1u8, 2, 3]);
}

#[test]
fn big_endian_integers() {
    let bytes = [0x12u8, 0x34, 0xde, 0xad, 0xbe, 0xef, 0x01];
    let mut d = Deserializer::new(&bytes);
    assert_eq!(u16::deserializable(&mut d), Ok(0x1234));
    assert_eq!(u32::deserializable(&mut d), Ok(0xdeadbeef));
    assert_eq!(u16::deserializable(&mut d), Err(CodecError::Truncated));
}

#[test]
fn serializer_appends() {
    let mut s = Serializer::new();
    s.push(1);
    s.extend(&[2, 3]);
    assert_eq!(s.to_owned_bytes(), vec![1, 2, 3]);
    s.push(4);
    assert_eq!(s.into_bytes(), vec![1, 2, 3, 4]);
}
