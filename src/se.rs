use vstd::prelude::*;

use crate::error::CodecError;

verus! {

/// Appends `bytes` to `out`.
pub(crate) fn append_bytes(out: &mut Vec<u8>, bytes: &[u8])
    ensures
        final(out)@ == old(out)@ + bytes@,
{
    let n = bytes.len();
    let mut i: usize = 0;
    while i < n
        invariant
            0 <= i <= n,
            n == bytes@.len(),
            out@ == old(out)@ + bytes@.subrange(0, i as int),
        decreases n - i,
    {
        out.push(bytes[i]);
        i = i + 1;
        assert(out@ =~= old(out)@ + bytes@.subrange(0, i as int));
    }
    assert(bytes@.subrange(0, n as int) =~= bytes@);
}

/// The two bytes of a 16-bit integer, most significant first.
pub open spec fn u16_be(v: u16) -> Seq<u8> {
    seq![(v / 256) as u8, (v % 256) as u8]
}

/// The four bytes of a 32-bit integer, most significant first.
pub open spec fn u32_be(v: u32) -> Seq<u8> {
    seq![
        (v / 0x100_0000) as u8,
        (v / 0x1_0000 % 256) as u8,
        (v / 0x100 % 256) as u8,
        (v % 256) as u8,
    ]
}

/// A value that can be written in the wire format.
pub trait Serializable {
    /// The bytes that the value is written as, or the error that writing it meets.
    spec fn wire(&self) -> Result<Seq<u8>, CodecError>;

    /// Appends the value's bytes; on an error nothing is appended.
    fn serialize(&self, serializer: &mut Serializer) -> (r: Result<(), CodecError>)
        ensures
            match self.wire() {
                Ok(w) => r is Ok && final(serializer)@ == old(serializer)@ + w,
                Err(e) => r == Err::<(), CodecError>(e) && final(serializer)@ == old(serializer)@,
            },
    ;
}

/// An append-only byte accumulator.
pub struct Serializer {
    serial_byte: Vec<u8>,
}

impl View for Serializer {
    type V = Seq<u8>;

    closed spec fn view(&self) -> Seq<u8> {
        self.serial_byte@
    }
}

impl Serializer {
    pub fn new() -> (r: Self)
        ensures
            r@ == Seq::<u8>::empty(),
    {
        Self { serial_byte: Vec::new() }
    }

    /// Appends one byte.
    pub fn push(&mut self, byte: u8)
        ensures
            final(self)@ == old(self)@.push(byte),
    {
        self.serial_byte.push(byte)
    }

    /// Appends a sequence of bytes.
    pub fn extend(&mut self, bytes: &[u8])
        ensures
            final(self)@ == old(self)@ + bytes@,
    {
        append_bytes(&mut self.serial_byte, bytes)
    }

    /// A copy of the bytes gathered so far.
    pub fn to_owned_bytes(&self) -> (r: Vec<u8>)
        ensures
            r@ == self@,
    {
        let mut out: Vec<u8> = Vec::new();
        append_bytes(&mut out, self.serial_byte.as_slice());
        out
    }

    /// Hands over the bytes gathered.
    pub fn into_bytes(self) -> (r: Vec<u8>)
        ensures
            r@ == self@,
    {
        self.serial_byte
    }
}

impl Serializable for u16 {
    open spec fn wire(&self) -> Result<Seq<u8>, CodecError> {
        Ok(u16_be(*self))
    }

    fn serialize(&self, serializer: &mut Serializer) -> (r: Result<(), CodecError>) {
        let ghost before = serializer@;
        let v = *self;
        serializer.push((v / 256) as u8);
        serializer.push((v % 256) as u8);
        assert(serializer@ =~= before + u16_be(v));
        assert(self.wire() == Ok::<Seq<u8>, CodecError>(u16_be(v)));
        Ok(())
    }
}

impl Serializable for u32 {
    open spec fn wire(&self) -> Result<Seq<u8>, CodecError> {
        Ok(u32_be(*self))
    }

    fn serialize(&self, serializer: &mut Serializer) -> (r: Result<(), CodecError>) {
        let ghost before = serializer@;
        let v = *self;
        serializer.push((v / 0x100_0000) as u8);
        serializer.push((v / 0x1_0000 % 256) as u8);
        serializer.push((v / 0x100 % 256) as u8);
        serializer.push((v % 256) as u8);
        assert(serializer@ =~= before + u32_be(v));
        assert(self.wire() == Ok::<Seq<u8>, CodecError>(u32_be(v)));
        Ok(())
    }
}

} // verus!
