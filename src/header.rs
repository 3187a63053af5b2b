use vstd::prelude::*;

use crate::de::{be_u16, lemma_u16_round_trip, u16_from_be, Deserializable, Deserializer};
use crate::error::CodecError;
use crate::se::{u16_be, Serializable, Serializer};

verus! {

/// The fixed 12-byte block at the start of every message.
///
/// The flag word holds, from its most significant bit down: `qr` (1 bit), `opcode` (4),
/// `aa` (1), `tc` (1), `rd` (1), `ra` (1), `z` (3) and `rcode` (4).
#[derive(Clone, Copy, Debug, PartialEq, Eq, Structural)]
pub struct Header {
    /// Identifies a query and the response to it.
    pub id: u16,
    /// Whether the message is a response.
    pub qr: bool,
    /// The kind of query (4 bits): 0 standard, 1 inverse, 2 server status.
    pub opcode: u8,
    /// Whether the responding server is an authority for the name.
    pub aa: bool,
    /// Whether the message was truncated by the channel.
    pub tc: bool,
    /// Whether recursion is desired.
    pub rd: bool,
    /// Whether recursion is available.
    pub ra: bool,
    /// Reserved (3 bits); sent as zero, kept as received.
    pub z: u8,
    /// The response code (4 bits).
    pub rcode: u8,
    /// How many entries the question section holds.
    pub qdcount: u16,
    /// How many records the answer section holds.
    pub ancount: u16,
    /// How many records the authority section holds.
    pub nscount: u16,
    /// How many records the additional section holds.
    pub arcount: u16,
}

impl View for Header {
    type V = Header;

    open spec fn view(&self) -> Header {
        *self
    }
}

/// One bit for a flag.
pub open spec fn bit(b: bool) -> u16 {
    if b {
        1
    } else {
        0
    }
}

/// The flag word of a header: `z` is sent as zero, `opcode` and `rcode` as their low four
/// bits.
pub open spec fn flag_word(h: Header) -> u16 {
    (bit(h.qr) << 15u16) | (((h.opcode & 0xF) as u16) << 11u16) | (bit(h.aa) << 10u16) | (
    bit(h.tc) << 9u16) | (bit(h.rd) << 8u16) | (bit(h.ra) << 7u16) | ((h.rcode & 0xF) as u16)
}

/// The header that an id, a flag word and four counts stand for.
pub open spec fn header_of(id: u16, w: u16, qd: u16, an: u16, ns: u16, ar: u16) -> Header {
    Header {
        id,
        qr: (w >> 15u16) & 1 != 0,
        opcode: ((w >> 11u16) & 0xF) as u8,
        aa: (w >> 10u16) & 1 != 0,
        tc: (w >> 9u16) & 1 != 0,
        rd: (w >> 8u16) & 1 != 0,
        ra: (w >> 7u16) & 1 != 0,
        z: ((w >> 4u16) & 0x7) as u8,
        rcode: (w & 0xF) as u8,
        qdcount: qd,
        ancount: an,
        nscount: ns,
        arcount: ar,
    }
}

/// The twelve bytes that a header is sent as.
pub open spec fn header_wire(h: Header) -> Seq<u8> {
    u16_be(h.id) + u16_be(flag_word(h)) + u16_be(h.qdcount) + u16_be(h.ancount) + u16_be(
        h.nscount,
    ) + u16_be(h.arcount)
}

/// The header read at `pos` of `buf`.
pub open spec fn parse_header(buf: Seq<u8>, pos: int) -> Result<(Header, int), CodecError> {
    if 0 <= pos && pos + 12 <= buf.len() {
        Ok(
            (
                header_of(
                    be_u16(buf[pos], buf[pos + 1]),
                    be_u16(buf[pos + 2], buf[pos + 3]),
                    be_u16(buf[pos + 4], buf[pos + 5]),
                    be_u16(buf[pos + 6], buf[pos + 7]),
                    be_u16(buf[pos + 8], buf[pos + 9]),
                    be_u16(buf[pos + 10], buf[pos + 11]),
                ),
                pos + 12,
            ),
        )
    } else {
        Err(CodecError::Truncated)
    }
}

impl Header {
    /// Whether every field fits its width on the wire, with `z` zero.
    pub open spec fn valid(&self) -> bool {
        self.opcode < 16 && self.z == 0 && self.rcode < 16
    }

    pub fn new(
        id: u16,
        qr: bool,
        opcode: u8,
        aa: bool,
        tc: bool,
        rd: bool,
        ra: bool,
        rcode: u8,
        qdcount: u16,
        ancount: u16,
        nscount: u16,
        arcount: u16,
    ) -> (r: Self)
        requires
            opcode < 16,
            rcode < 16,
        ensures
            r.valid(),
            r == (Header {
                id,
                qr,
                opcode,
                aa,
                tc,
                rd,
                ra,
                z: 0,
                rcode,
                qdcount,
                ancount,
                nscount,
                arcount,
            }),
    {
        Self {
            id,
            qr,
            opcode,
            aa,
            tc,
            rd,
            ra,
            rcode,
            qdcount,
            ancount,
            nscount,
            arcount,
            z: 0b000,
        }
    }

    /// How many entries the question section holds.
    pub fn num_questions(&self) -> (r: u16)
        ensures
            r == self.qdcount,
    {
        self.qdcount
    }

    /// How many records the answer section holds.
    pub fn num_answers(&self) -> (r: u16)
        ensures
            r == self.ancount,
    {
        self.ancount
    }

    /// How many records the authority section holds.
    pub fn num_authorities(&self) -> (r: u16)
        ensures
            r == self.nscount,
    {
        self.nscount
    }

    /// How many records the additional section holds.
    pub fn num_additionals(&self) -> (r: u16)
        ensures
            r == self.arcount,
    {
        self.arcount
    }

    /// The flag word, built field by field from the most significant bit down.
    fn encode_flags(&self) -> (r: u16)
        ensures
            r == flag_word(*self),
    {
        let q: u16 = if self.qr { 1 } else { 0 };
        let o: u16 = (self.opcode & 0xF) as u16;
        let a: u16 = if self.aa { 1 } else { 0 };
        let t: u16 = if self.tc { 1 } else { 0 };
        let d: u16 = if self.rd { 1 } else { 0 };
        let v: u16 = if self.ra { 1 } else { 0 };
        let c: u16 = (self.rcode & 0xF) as u16;
        let op = self.opcode;
        let rc = self.rcode;
        assert(op & 0xF <= 15 && rc & 0xF <= 15) by (bit_vector);
        let mut flag: u16 = q;
        flag = (flag << 4u16) | o;
        flag = (flag << 1u16) | a;
        flag = (flag << 1u16) | t;
        flag = (flag << 1u16) | d;
        flag = (flag << 1u16) | v;
        flag = (flag << 3u16) | 0;
        flag = (flag << 4u16) | c;
        assert(((((((((q << 4u16) | o) << 1u16 | a) << 1u16 | t) << 1u16 | d) << 1u16 | v) << 3u16
            | 0) << 4u16 | c) == (q << 15u16) | (o << 11u16) | (a << 10u16) | (t << 9u16) | (d
            << 8u16) | (v << 7u16) | c) by (bit_vector)
            requires
                q <= 1,
                o <= 15,
                a <= 1,
                t <= 1,
                d <= 1,
                v <= 1,
                c <= 15,
        ;
        flag
    }
}

/// Unpacks a flag word field by field from the least significant bit up.
fn decode_flags(id: u16, flag_word: u16, qd: u16, an: u16, ns: u16, ar: u16) -> (r: Header)
    ensures
        r == header_of(id, flag_word, qd, an, ns, ar),
{
    let w = flag_word;
    let rcode = (w & 0xF) as u8;
    let f4 = w >> 4u16;
    let z = (f4 & 0x7) as u8;
    let f7 = f4 >> 3u16;
    let ra = (f7 & 0x1) != 0;
    let f8 = f7 >> 1u16;
    let rd = (f8 & 0x1) != 0;
    let f9 = f8 >> 1u16;
    let tc = (f9 & 0x1) != 0;
    let f10 = f9 >> 1u16;
    let aa = (f10 & 0x1) != 0;
    let f11 = f10 >> 1u16;
    let opcode = (f11 & 0xF) as u8;
    let f15 = f11 >> 4u16;
    let qr = (f15 & 0x1) != 0;
    assert(f7 == w >> 7u16) by (bit_vector)
        requires
            f4 == w >> 4u16,
            f7 == f4 >> 3u16,
    ;
    assert(f9 == w >> 9u16) by (bit_vector)
        requires
            f7 == w >> 7u16,
            f8 == f7 >> 1u16,
            f9 == f8 >> 1u16,
    ;
    assert(f11 == w >> 11u16) by (bit_vector)
        requires
            f9 == w >> 9u16,
            f10 == f9 >> 1u16,
            f11 == f10 >> 1u16,
    ;
    assert(f8 == w >> 8u16 && f10 == w >> 10u16 && f15 == w >> 15u16) by (bit_vector)
        requires
            f7 == w >> 7u16,
            f8 == f7 >> 1u16,
            f9 == w >> 9u16,
            f10 == f9 >> 1u16,
            f11 == w >> 11u16,
            f15 == f11 >> 4u16,
    ;
    Header {
        id,
        qr,
        opcode,
        aa,
        tc,
        rd,
        ra,
        z,
        rcode,
        qdcount: qd,
        ancount: an,
        nscount: ns,
        arcount: ar,
    }
}

impl Serializable for Header {
    open spec fn wire(&self) -> Result<Seq<u8>, CodecError> {
        Ok(header_wire(*self))
    }

    fn serialize(&self, serializer: &mut Serializer) -> (r: Result<(), CodecError>) {
        let flag = self.encode_flags();
        let _ = self.id.serialize(serializer);
        let _ = flag.serialize(serializer);
        let _ = self.qdcount.serialize(serializer);
        let _ = self.ancount.serialize(serializer);
        let _ = self.nscount.serialize(serializer);
        let _ = self.arcount.serialize(serializer);
        assert(final(serializer)@ =~= old(serializer)@ + header_wire(*self));
        Ok(())
    }
}

impl Deserializable for Header {
    open spec fn parse(buf: Seq<u8>, pos: int, limit: nat) -> Result<(Header, int), CodecError> {
        parse_header(buf, pos)
    }

    open spec fn jumps_below(buf: Seq<u8>, pos: int, limit: nat, k: int) -> bool {
        true
    }

    proof fn lemma_prefix(buf: Seq<u8>, pos: int, limit: nat, k: int) {
        if pos + 12 <= k {
            let pre = buf.subrange(0, k);
            assert(forall|i: int| 0 <= i < 12 ==> #[trigger] pre[pos + i] == buf[pos + i]);
        }
    }

    fn deserializable_with(deserializer: &mut Deserializer, max_pointers: u8) -> (r: Result<
        Header,
        CodecError,
    >) {
        let mut b = [0u8; 12];
        match deserializer.read_slice2(&mut b) {
            Ok(()) => {},
            Err(e) => return Err(e),
        }
        let h = decode_flags(
            u16_from_be(b[0], b[1]),
            u16_from_be(b[2], b[3]),
            u16_from_be(b[4], b[5]),
            u16_from_be(b[6], b[7]),
            u16_from_be(b[8], b[9]),
            u16_from_be(b[10], b[11]),
        );
        Ok(h)
    }
}

} // verus!

verus! {

/// Decoding the bytes that a valid header is encoded as gives the same header, and the
/// position right after its twelve bytes.
pub proof fn lemma_header_round_trip(h: Header, buf: Seq<u8>, pos: int)
    requires
        h.valid(),
        0 <= pos,
        pos + 12 <= buf.len(),
        buf.subrange(pos, pos + 12) == header_wire(h),
    ensures
        parse_header(buf, pos) == Ok::<(Header, int), CodecError>((h, pos + 12)),
{
    let w = header_wire(h);
    assert forall|i: int| 0 <= i < 12 implies buf[pos + i] == w[i] by {
        assert(buf.subrange(pos, pos + 12)[i] == buf[pos + i]);
    }
    lemma_u16_round_trip(h.id);
    lemma_u16_round_trip(flag_word(h));
    lemma_u16_round_trip(h.qdcount);
    lemma_u16_round_trip(h.ancount);
    lemma_u16_round_trip(h.nscount);
    lemma_u16_round_trip(h.arcount);
    let f = flag_word(h);
    let q = bit(h.qr);
    let a = bit(h.aa);
    let t = bit(h.tc);
    let d = bit(h.rd);
    let v = bit(h.ra);
    let op = h.opcode;
    let rc = h.rcode;
    assert(op & 0xF == op && rc & 0xF == rc) by (bit_vector)
        requires
            op < 16,
            rc < 16,
    ;
    let o = op as u16;
    let c = rc as u16;
    assert(f == (q << 15u16) | (o << 11u16) | (a << 10u16) | (t << 9u16) | (d << 8u16) | (v
        << 7u16) | c);
    assert(((f >> 15u16) & 1) == q && ((f >> 11u16) & 0xF) == o && ((f >> 10u16) & 1) == a && ((f
        >> 9u16) & 1) == t && ((f >> 8u16) & 1) == d && ((f >> 7u16) & 1) == v && ((f >> 4u16)
        & 0x7) == 0 && (f & 0xF) == c) by (bit_vector)
        requires
            f == (q << 15u16) | (o << 11u16) | (a << 10u16) | (t << 9u16) | (d << 8u16) | (v
                << 7u16) | c,
            q <= 1,
            o <= 15,
            a <= 1,
            t <= 1,
            d <= 1,
            v <= 1,
            c <= 15,
    ;
    assert(w =~= seq![
        u16_be(h.id)[0], u16_be(h.id)[1], u16_be(f)[0], u16_be(f)[1],
        u16_be(h.qdcount)[0], u16_be(h.qdcount)[1], u16_be(h.ancount)[0], u16_be(h.ancount)[1],
        u16_be(h.nscount)[0], u16_be(h.nscount)[1], u16_be(h.arcount)[0], u16_be(h.arcount)[1],
    ]);
    assert(be_u16(buf[pos + 2], buf[pos + 3]) == f);
    assert(header_of(h.id, f, h.qdcount, h.ancount, h.nscount, h.arcount) == h);
}

} // verus!
