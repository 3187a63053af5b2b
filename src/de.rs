use vstd::prelude::*;

use crate::error::CodecError;
use crate::name::MAX_COMPRESSION_COUNT;
use crate::se::u16_be;

verus! {

/// The big-endian 16-bit integer made of two bytes.
pub open spec fn be_u16(hi: u8, lo: u8) -> u16 {
    (hi as int * 256 + lo as int) as u16
}

/// The big-endian 32-bit integer made of four bytes.
pub open spec fn be_u32(b0: u8, b1: u8, b2: u8, b3: u8) -> u32 {
    (b0 as int * 0x100_0000 + b1 as int * 0x1_0000 + b2 as int * 0x100 + b3 as int) as u32
}

/// The big-endian 16-bit integer made of two bytes.
pub fn u16_from_be(hi: u8, lo: u8) -> (r: u16)
    ensures
        r == be_u16(hi, lo),
{
    hi as u16 * 256 + lo as u16
}

/// The big-endian 32-bit integer made of four bytes.
pub fn u32_from_be(b0: u8, b1: u8, b2: u8, b3: u8) -> (r: u32)
    ensures
        r == be_u32(b0, b1, b2, b3),
{
    b0 as u32 * 0x100_0000 + b1 as u32 * 0x1_0000 + b2 as u32 * 0x100 + b3 as u32
}

/// Whether a decoder's result agrees with the modelled parse `p` of the same input, where `end`
/// is where the cursor stands afterwards.
pub open spec fn decoded_as<T: View>(
    r: Result<T, CodecError>,
    p: Result<(T::V, int), CodecError>,
    end: int,
) -> bool {
    match (r, p) {
        (Ok(x), Ok((v, e))) => x@ == v && end == e,
        (Err(e1), Err(e2)) => e1 == e2,
        _ => false,
    }
}

/// A value that can be read from the wire format.
pub trait Deserializable: Sized + View {
    /// What reading at position `pos` of `buf` gives, with at most `limit` compression
    /// pointers followed in a row: the value's model and the position right after it, or
    /// the error met.
    spec fn parse(buf: Seq<u8>, pos: int, limit: nat) -> Result<(Self::V, int), CodecError>;

    /// Whether reading a value at `pos` of `buf` meets no compression pointer that lies
    /// wholly before `k` and leads to an offset at or past `k`.
    spec fn jumps_below(buf: Seq<u8>, pos: int, limit: nat, k: int) -> bool;

    /// Reading from the first `k` bytes of `buf` gives what reading from all of `buf`
    /// gives, or `Truncated`; and `Truncated` where the value runs past `k`; as long as no
    /// pointer followed leads past `k`.
    proof fn lemma_prefix(buf: Seq<u8>, pos: int, limit: nat, k: int)
        requires
            Self::parse(buf, pos, limit) is Ok,
            Self::jumps_below(buf, pos, limit, k),
            0 <= k <= buf.len(),
        ensures
            Self::parse(buf.subrange(0, k), pos, limit) == Self::parse(buf, pos, limit)
                || Self::parse(buf.subrange(0, k), pos, limit) == Err::<(Self::V, int), CodecError>(
                CodecError::Truncated,
            ),
            Self::parse(buf, pos, limit)->Ok_0.1 > k ==> Self::parse(buf.subrange(0, k), pos, limit)
                == Err::<(Self::V, int), CodecError>(CodecError::Truncated),
    ;

    /// Reads a value, following at most `max_pointers` compression pointers in a row.
    fn deserializable_with(deserializer: &mut Deserializer, max_pointers: u8) -> (r: Result<
        Self,
        CodecError,
    >)
        requires
            old(deserializer).wf(),
        ensures
            final(deserializer).wf(),
            final(deserializer).bytes() == old(deserializer).bytes(),
            decoded_as(
                r,
                Self::parse(old(deserializer).bytes(), old(deserializer).pos(), max_pointers as nat),
                final(deserializer).pos(),
            ),
    ;

    /// Reads a value, following at most `MAX_COMPRESSION_COUNT` compression pointers in a
    /// row.
    fn deserializable(deserializer: &mut Deserializer) -> (r: Result<Self, CodecError>)
        requires
            old(deserializer).wf(),
        ensures
            final(deserializer).wf(),
            final(deserializer).bytes() == old(deserializer).bytes(),
            decoded_as(
                r,
                Self::parse(
                    old(deserializer).bytes(),
                    old(deserializer).pos(),
                    MAX_COMPRESSION_COUNT as nat,
                ),
                final(deserializer).pos(),
            ),
    {
        Self::deserializable_with(deserializer, MAX_COMPRESSION_COUNT)
    }
}

/// A read cursor over an immutable byte buffer.
pub struct Deserializer<'d> {
    src: &'d [u8],
    cursor: usize,
}

impl<'d> Deserializer<'d> {
    /// The whole buffer that is read.
    pub closed spec fn bytes(&self) -> Seq<u8> {
        self.src@
    }

    /// The position of the next byte to read.
    pub closed spec fn pos(&self) -> int {
        self.cursor as int
    }

    /// The cursor never stands past the end of the buffer.
    pub open spec fn wf(&self) -> bool {
        0 <= self.pos() <= self.bytes().len() <= usize::MAX
    }

    pub fn new(src: &'d [u8]) -> (r: Self)
        ensures
            r.wf(),
            r.bytes() == src@,
            r.pos() == 0,
    {
        proof {
            assert(src.len() == src@.len());
        }
        Self { src, cursor: 0 }
    }

    /// The position of the next byte to read.
    pub fn position(&self) -> (r: usize)
        ensures
            r == self.pos(),
    {
        self.cursor
    }

    /// Reads one byte and moves past it.
    pub fn read(&mut self) -> (r: Result<u8, CodecError>)
        requires
            old(self).wf(),
        ensures
            final(self).wf(),
            final(self).bytes() == old(self).bytes(),
            old(self).pos() < old(self).bytes().len() ==> r == Ok::<u8, CodecError>(
                old(self).bytes()[old(self).pos()],
            ) && final(self).pos() == old(self).pos() + 1,
            old(self).pos() >= old(self).bytes().len() ==> r == Err::<u8, CodecError>(
                CodecError::Truncated,
            ) && final(self).pos() == old(self).pos(),
    {
        if self.cursor < self.src.len() {
            let b = self.src[self.cursor];
            self.cursor = self.cursor + 1;
            Ok(b)
        } else {
            Err(CodecError::Truncated)
        }
    }

    /// Fills `buf` with the next bytes and moves past them; fails, reading nothing, where
    /// fewer bytes than `buf` holds are left.
    pub fn read_slice2(&mut self, buf: &mut [u8]) -> (r: Result<(), CodecError>)
        requires
            old(self).wf(),
        ensures
            final(self).wf(),
            final(self).bytes() == old(self).bytes(),
            final(buf)@.len() == old(buf)@.len(),
            old(self).pos() + old(buf)@.len() <= old(self).bytes().len() ==> r is Ok
                && final(buf)@ == old(self).bytes().subrange(
                old(self).pos(),
                old(self).pos() + old(buf)@.len(),
            ) && final(self).pos() == old(self).pos() + old(buf)@.len(),
            old(self).pos() + old(buf)@.len() > old(self).bytes().len() ==> r == Err::<
                (),
                CodecError,
            >(CodecError::Truncated) && final(buf)@ == old(buf)@ && final(self).pos() == old(
                self,
            ).pos(),
    {
        let n = buf.len();
        if n > self.src.len() - self.cursor {
            return Err(CodecError::Truncated);
        }
        let start = self.cursor;
        let total = self.src.len();
        let mut i: usize = 0;
        while i < n
            invariant
                0 <= i <= n,
                total == self.src@.len(),
                n == buf@.len(),
                start + n <= self.src@.len(),
                self.cursor == start,
                forall|k: int| 0 <= k < i ==> buf@[k] == self.src@[start + k],
            decreases n - i,
        {
            buf[i] = self.src[start + i];
            i = i + 1;
        }
        self.cursor = start + n;
        assert(buf@ =~= self.src@.subrange(start as int, start + n));
        Ok(())
    }

    /// Reads the next `len` bytes and moves past them; fails, reading nothing, where fewer
    /// are left.
    pub fn read_slice3(&mut self, len: usize) -> (r: Result<Vec<u8>, CodecError>)
        requires
            old(self).wf(),
        ensures
            final(self).wf(),
            final(self).bytes() == old(self).bytes(),
            old(self).pos() + len <= old(self).bytes().len() ==> r is Ok && r->Ok_0@ == old(
                self,
            ).bytes().subrange(old(self).pos(), old(self).pos() + len) && final(self).pos()
                == old(self).pos() + len,
            old(self).pos() + len > old(self).bytes().len() ==> r == Err::<Vec<u8>, CodecError>(
                CodecError::Truncated,
            ) && final(self).pos() == old(self).pos(),
    {
        if len > self.src.len() - self.cursor {
            return Err(CodecError::Truncated);
        }
        let start = self.cursor;
        let total = self.src.len();
        let mut result: Vec<u8> = Vec::new();
        let mut i: usize = 0;
        while i < len
            invariant
                0 <= i <= len,
                total == self.src@.len(),
                start + len <= self.src@.len(),
                self.cursor == start,
                result@ == self.src@.subrange(start as int, start + i),
            decreases len - i,
        {
            result.push(self.src[start + i]);
            i = i + 1;
            assert(result@ =~= self.src@.subrange(start as int, start + i));
        }
        self.cursor = start + len;
        Ok(result)
    }

    /// Reads the next `N` bytes into an array and moves past them; fails, reading
    /// nothing, where fewer are left.
    pub fn read_slice<const N: usize>(&mut self) -> (r: Result<[u8; N], CodecError>)
        requires
            old(self).wf(),
        ensures
            final(self).wf(),
            final(self).bytes() == old(self).bytes(),
            old(self).pos() + N <= old(self).bytes().len() ==> r is Ok && r->Ok_0@ == old(
                self,
            ).bytes().subrange(old(self).pos(), old(self).pos() + N) && final(self).pos()
                == old(self).pos() + N,
            old(self).pos() + N > old(self).bytes().len() ==> r == Err::<[u8; N], CodecError>(
                CodecError::Truncated,
            ) && final(self).pos() == old(self).pos(),
    {
        let mut result = [0u8; N];
        match self.read_slice2(&mut result) {
            Ok(()) => Ok(result),
            Err(e) => Err(e),
        }
    }

    /// Moves the cursor to `cursor` and gives back where it stood; fails, moving nothing,
    /// where `cursor` is not a position inside the buffer.
    pub fn reset_cursor(&mut self, cursor: usize) -> (r: Result<usize, CodecError>)
        requires
            old(self).wf(),
        ensures
            final(self).wf(),
            final(self).bytes() == old(self).bytes(),
            cursor < old(self).bytes().len() ==> r == Ok::<usize, CodecError>(
                old(self).pos() as usize,
            ) && final(self).pos() == cursor,
            cursor >= old(self).bytes().len() ==> r == Err::<usize, CodecError>(
                CodecError::OutOfRange,
            ) && final(self).pos() == old(self).pos(),
    {
        if cursor >= self.src.len() {
            return Err(CodecError::OutOfRange);
        }
        let old_cursor = self.cursor;
        self.cursor = cursor;
        Ok(old_cursor)
    }

    /// Puts the cursor back at a position that it held before (the end of the buffer
    /// included).
    pub fn restore_cursor(&mut self, cursor: usize)
        requires
            old(self).wf(),
            cursor <= old(self).bytes().len(),
        ensures
            final(self).wf(),
            final(self).bytes() == old(self).bytes(),
            final(self).pos() == cursor,
    {
        self.cursor = cursor;
    }

    /// The whole buffer, also what was already read.
    pub fn peek_bytes(&self) -> (r: &[u8])
        ensures
            r@ == self.bytes(),
    {
        self.src
    }
}

impl Deserializable for u16 {
    open spec fn parse(buf: Seq<u8>, pos: int, limit: nat) -> Result<(u16, int), CodecError> {
        if 0 <= pos && pos + 2 <= buf.len() {
            Ok((be_u16(buf[pos], buf[pos + 1]), pos + 2))
        } else {
            Err(CodecError::Truncated)
        }
    }

    open spec fn jumps_below(buf: Seq<u8>, pos: int, limit: nat, k: int) -> bool {
        true
    }

    proof fn lemma_prefix(buf: Seq<u8>, pos: int, limit: nat, k: int) {
        if pos + 2 <= k {
            assert(buf.subrange(0, k)[pos] == buf[pos]);
            assert(buf.subrange(0, k)[pos + 1] == buf[pos + 1]);
        }
    }

    fn deserializable_with(deserializer: &mut Deserializer, max_pointers: u8) -> (r: Result<
        u16,
        CodecError,
    >) {
        let mut bytes = [0u8; 2];
        match deserializer.read_slice2(&mut bytes) {
            Ok(()) => Ok(u16_from_be(bytes[0], bytes[1])),
            Err(e) => Err(e),
        }
    }
}

impl Deserializable for u32 {
    open spec fn parse(buf: Seq<u8>, pos: int, limit: nat) -> Result<(u32, int), CodecError> {
        if 0 <= pos && pos + 4 <= buf.len() {
            Ok((be_u32(buf[pos], buf[pos + 1], buf[pos + 2], buf[pos + 3]), pos + 4))
        } else {
            Err(CodecError::Truncated)
        }
    }

    open spec fn jumps_below(buf: Seq<u8>, pos: int, limit: nat, k: int) -> bool {
        true
    }

    proof fn lemma_prefix(buf: Seq<u8>, pos: int, limit: nat, k: int) {
        if pos + 4 <= k {
            assert(buf.subrange(0, k)[pos] == buf[pos]);
            assert(buf.subrange(0, k)[pos + 1] == buf[pos + 1]);
            assert(buf.subrange(0, k)[pos + 2] == buf[pos + 2]);
            assert(buf.subrange(0, k)[pos + 3] == buf[pos + 3]);
        }
    }

    fn deserializable_with(deserializer: &mut Deserializer, max_pointers: u8) -> (r: Result<
        u32,
        CodecError,
    >) {
        let mut bytes = [0u8; 4];
        match deserializer.read_slice2(&mut bytes) {
            Ok(()) => Ok(u32_from_be(bytes[0], bytes[1], bytes[2], bytes[3])),
            Err(e) => Err(e),
        }
    }
}

} // verus!

verus! {

/// Reading back the two bytes of a 16-bit integer gives the integer.
pub proof fn lemma_u16_round_trip(v: u16)
    ensures
        be_u16(u16_be(v)[0], u16_be(v)[1]) == v,
{
}

} // verus!
