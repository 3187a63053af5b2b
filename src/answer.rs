use vstd::prelude::*;

use vstd::utf8::encode_utf8;

use crate::de::{be_u16, be_u32, u16_from_be, u32_from_be, Deserializable, Deserializer};
use crate::error::CodecError;
use crate::name::{decode_domain_limited, encode_domain, join_dot, name_wire, parse_name, MAX_COMPRESSION_COUNT};
use crate::name_laws::{lemma_name_end_after, lemma_name_prefix, name_jumps_below};
use crate::se::{u16_be, u32_be, Serializable, Serializer};
use crate::text::{lossy_string, lossy_utf8, push_char};

verus! {

/// The type of a resource record, by its wire code; codes outside the table are kept as
/// they are.
#[derive(Clone, Copy, Debug, PartialEq, Eq, Structural)]
pub enum ResourceRecordType {
    A,
    NS,
    MD,
    MF,
    CNAME,
    SOA,
    MB,
    MG,
    MR,
    NULL,
    WKS,
    PTR,
    HINFO,
    MINFO,
    MX,
    TXT,
    Unknown(u16),
}

/// The type that a wire code stands for.
pub open spec fn type_of_code(code: u16) -> ResourceRecordType {
    match code {
        1 => ResourceRecordType::A,
        2 => ResourceRecordType::NS,
        3 => ResourceRecordType::MD,
        4 => ResourceRecordType::MF,
        5 => ResourceRecordType::CNAME,
        6 => ResourceRecordType::SOA,
        7 => ResourceRecordType::MB,
        8 => ResourceRecordType::MG,
        9 => ResourceRecordType::MR,
        10 => ResourceRecordType::NULL,
        11 => ResourceRecordType::WKS,
        12 => ResourceRecordType::PTR,
        13 => ResourceRecordType::HINFO,
        14 => ResourceRecordType::MINFO,
        15 => ResourceRecordType::MX,
        16 => ResourceRecordType::TXT,
        _ => ResourceRecordType::Unknown(code),
    }
}

/// The wire code of a type.
pub open spec fn code_of(t: ResourceRecordType) -> u16 {
    match t {
        ResourceRecordType::A => 1,
        ResourceRecordType::NS => 2,
        ResourceRecordType::MD => 3,
        ResourceRecordType::MF => 4,
        ResourceRecordType::CNAME => 5,
        ResourceRecordType::SOA => 6,
        ResourceRecordType::MB => 7,
        ResourceRecordType::MG => 8,
        ResourceRecordType::MR => 9,
        ResourceRecordType::NULL => 10,
        ResourceRecordType::WKS => 11,
        ResourceRecordType::PTR => 12,
        ResourceRecordType::HINFO => 13,
        ResourceRecordType::MINFO => 14,
        ResourceRecordType::MX => 15,
        ResourceRecordType::TXT => 16,
        ResourceRecordType::Unknown(c) => c,
    }
}

/// The display name of a wire code; a code outside the table shows as "UNKNOWN".
pub open spec fn code_name(code: u16) -> Seq<char> {
    match code {
        1 => "A"@,
        2 => "NS"@,
        3 => "MD"@,
        4 => "MF"@,
        5 => "CNAME"@,
        6 => "SOA"@,
        7 => "MB"@,
        8 => "MG"@,
        9 => "MR"@,
        10 => "NULL"@,
        11 => "WKS"@,
        12 => "PTR"@,
        13 => "HINFO"@,
        14 => "MINFO"@,
        15 => "MX"@,
        16 => "TXT"@,
        _ => "UNKNOWN"@,
    }
}

/// The display name of a type, which goes by its wire code: `Unknown(5)` shows as "CNAME".
pub open spec fn display_name(t: ResourceRecordType) -> Seq<char> {
    code_name(code_of(t))
}

/// Whether a type is the one its own wire code stands for: `Unknown` only holds a code
/// outside the table.
pub open spec fn is_canonical(t: ResourceRecordType) -> bool {
    type_of_code(code_of(t)) == t
}

/// Every code read from the wire gives a type that is its own code's type, and writes back
/// as the same code.
pub proof fn lemma_code_canonical(code: u16)
    ensures
        is_canonical(type_of_code(code)),
        code_of(type_of_code(code)) == code,
{
}

impl ResourceRecordType {
    /// The type that the type's wire code stands for: the named variant where the code has
    /// one.
    pub fn canonical(&self) -> (r: Self)
        ensures
            r == type_of_code(code_of(*self)),
            code_of(r) == code_of(*self),
            is_canonical(r),
    {
        Self::from_code(self.code())
    }

    /// The type that a wire code stands for; every code has one.
    pub fn from_code(code: u16) -> (r: Self)
        ensures
            r == type_of_code(code),
    {
        match code {
            1 => ResourceRecordType::A,
            2 => ResourceRecordType::NS,
            3 => ResourceRecordType::MD,
            4 => ResourceRecordType::MF,
            5 => ResourceRecordType::CNAME,
            6 => ResourceRecordType::SOA,
            7 => ResourceRecordType::MB,
            8 => ResourceRecordType::MG,
            9 => ResourceRecordType::MR,
            10 => ResourceRecordType::NULL,
            11 => ResourceRecordType::WKS,
            12 => ResourceRecordType::PTR,
            13 => ResourceRecordType::HINFO,
            14 => ResourceRecordType::MINFO,
            15 => ResourceRecordType::MX,
            16 => ResourceRecordType::TXT,
            _ => ResourceRecordType::Unknown(code),
        }
    }

    /// The wire code of the type.
    pub fn code(&self) -> (r: u16)
        ensures
            r == code_of(*self),
    {
        match self {
            ResourceRecordType::A => 1,
            ResourceRecordType::NS => 2,
            ResourceRecordType::MD => 3,
            ResourceRecordType::MF => 4,
            ResourceRecordType::CNAME => 5,
            ResourceRecordType::SOA => 6,
            ResourceRecordType::MB => 7,
            ResourceRecordType::MG => 8,
            ResourceRecordType::MR => 9,
            ResourceRecordType::NULL => 10,
            ResourceRecordType::WKS => 11,
            ResourceRecordType::PTR => 12,
            ResourceRecordType::HINFO => 13,
            ResourceRecordType::MINFO => 14,
            ResourceRecordType::MX => 15,
            ResourceRecordType::TXT => 16,
            ResourceRecordType::Unknown(c) => *c,
        }
    }

    /// The display name of the type.
    pub fn name(&self) -> (r: &'static str)
        ensures
            r@ == display_name(*self),
    {
        match self.code() {
            1 => "A",
            2 => "NS",
            3 => "MD",
            4 => "MF",
            5 => "CNAME",
            6 => "SOA",
            7 => "MB",
            8 => "MG",
            9 => "MR",
            10 => "NULL",
            11 => "WKS",
            12 => "PTR",
            13 => "HINFO",
            14 => "MINFO",
            15 => "MX",
            16 => "TXT",
            _ => "UNKNOWN",
        }
    }
}

} // verus!

verus! {

impl From<u16> for ResourceRecordType {
    fn from(code: u16) -> Self {
        Self::from_code(code)
    }
}

impl vstd::std_specs::convert::FromSpecImpl<u16> for ResourceRecordType {
    open spec fn obeys_from_spec() -> bool {
        true
    }

    open spec fn from_spec(code: u16) -> Self {
        type_of_code(code)
    }
}

/// The decimal digit `d` as a character.
pub open spec fn digit(d: u8) -> char {
    (d + 48) as char
}

/// The decimal form of a byte, without leading zeros.
pub open spec fn decimal(b: u8) -> Seq<char> {
    if b < 10 {
        seq![digit(b)]
    } else if b < 100 {
        seq![digit(b / 10), digit(b % 10)]
    } else {
        seq![digit(b / 100), digit(b / 10 % 10), digit(b % 10)]
    }
}

/// The decimal forms of the bytes, dot-separated ("93.184.216.34").
pub open spec fn dotted_decimal(b: Seq<u8>) -> Seq<char> {
    join_dot(b.map_values(|x: u8| decimal(x)))
}

/// Appends the decimal form of `b`.
fn push_decimal(s: &mut String, b: u8)
    ensures
        final(s)@ == old(s)@ + decimal(b),
{
    if b >= 100 {
        push_char(s, ((b / 100) + 48) as char);
    }
    if b >= 10 {
        push_char(s, ((b / 10 % 10) + 48) as char);
    }
    push_char(s, ((b % 10) + 48) as char);
    assert(final(s)@ =~= old(s)@ + decimal(b));
}

/// Renders bytes as dot-separated decimal numbers.
pub fn render_dotted_decimal(bytes: &[u8]) -> (r: String)
    ensures
        r@ == dotted_decimal(bytes@),
{
    let n = bytes.len();
    let mut out = String::new();
    let mut i: usize = 0;
    while i < n
        invariant
            0 <= i <= n,
            n == bytes@.len(),
            out@ == dotted_decimal(bytes@.subrange(0, i as int)),
        decreases n - i,
    {
        let ghost prev = bytes@.subrange(0, i as int).map_values(|x: u8| decimal(x));
        let ghost next = bytes@.subrange(0, i + 1).map_values(|x: u8| decimal(x));
        assert(next =~= prev.push(decimal(bytes@[i as int])));
        assert(next.drop_last() =~= prev);
        if i > 0 {
            push_char(&mut out, '.');
        }
        push_decimal(&mut out, bytes[i]);
        i = i + 1;
        proof {
            if prev.len() == 0 {
                assert(next =~= seq![decimal(bytes@[i - 1])]);
                assert(out@ =~= next[0]);
            } else {
                assert(out@ =~= join_dot(prev) + seq!['.'] + next.last());
            }
        }
    }
    assert(bytes@.subrange(0, n as int) =~= bytes@);
    out
}

} // verus!

verus! {

/// One record of the answer, authority or additional section.
#[derive(Debug, PartialEq, Eq)]
pub struct ResourceRecord {
    name: String,
    rr_type: ResourceRecordType,
    class: u16,
    ttl: u32,
    rdlength: u16,
    rdata: String,
}

/// What a resource record holds.
pub struct RecordModel {
    pub name: Seq<char>,
    pub rr_type: ResourceRecordType,
    pub class: u16,
    pub ttl: u32,
    pub rdlength: u16,
    pub rdata: Seq<char>,
}

impl View for ResourceRecord {
    type V = RecordModel;

    closed spec fn view(&self) -> RecordModel {
        RecordModel {
            name: self.name@,
            rr_type: self.rr_type,
            class: self.class,
            ttl: self.ttl,
            rdlength: self.rdlength,
            rdata: self.rdata@,
        }
    }
}

/// Whether the rdata of a record of type `t` is a name.
pub open spec fn is_name_type(t: ResourceRecordType) -> bool {
    t == ResourceRecordType::NS || t == ResourceRecordType::CNAME
}

/// The text of the rdata of type `t` that starts at `pos` of `buf`, and the position after
/// it: an address rendered in decimal, a (possibly compressed) name for NS and CNAME, not
/// bounded by `rdlength`, and the raw bytes as text for any other type.
pub open spec fn parse_rdata(
    buf: Seq<u8>,
    pos: int,
    t: ResourceRecordType,
    rdlength: u16,
    limit: nat,
) -> Result<(Seq<char>, int), CodecError> {
    match t {
        ResourceRecordType::NS | ResourceRecordType::CNAME => parse_name(
            buf,
            pos,
            0,
            limit,
        ),
        _ => if pos + rdlength > buf.len() {
            Err(CodecError::Truncated)
        } else {
            let raw = buf.subrange(pos, pos + rdlength);
            if t == ResourceRecordType::A {
                Ok((dotted_decimal(raw), pos + rdlength))
            } else {
                Ok((lossy_utf8(raw), pos + rdlength))
            }
        },
    }
}

/// The record read at `pos` of `buf`, with at most `limit` compression pointers followed in
/// a row.
pub open spec fn parse_record(buf: Seq<u8>, pos: int, limit: nat) -> Result<
    (RecordModel, int),
    CodecError,
> {
    match parse_name(buf, pos, 0, limit) {
        Ok((name, p)) => if p + 10 <= buf.len() {
            let t = type_of_code(be_u16(buf[p], buf[p + 1]));
            let rdlength = be_u16(buf[p + 8], buf[p + 9]);
            match parse_rdata(buf, p + 10, t, rdlength, limit) {
                Ok((rdata, end)) => Ok(
                    (
                        RecordModel {
                            name,
                            rr_type: t,
                            class: be_u16(buf[p + 2], buf[p + 3]),
                            ttl: be_u32(buf[p + 4], buf[p + 5], buf[p + 6], buf[p + 7]),
                            rdlength,
                            rdata,
                        },
                        end,
                    ),
                ),
                Err(e) => Err(e),
            }
        } else {
            Err(CodecError::Truncated)
        },
        Err(e) => Err(e),
    }
}

/// The bytes that a record is sent as: its name, type, class, ttl and rdlength, then the
/// rdata text's bytes as they are; or `LabelTooLong`.
pub open spec fn record_wire(r: RecordModel) -> Result<Seq<u8>, CodecError> {
    match name_wire(r.name) {
        Some(w) => Ok(
            w + u16_be(code_of(r.rr_type)) + u16_be(r.class) + u32_be(r.ttl) + u16_be(r.rdlength)
                + encode_utf8(r.rdata),
        ),
        None => Err(CodecError::LabelTooLong),
    }
}

impl ResourceRecord {
    pub fn new(
        name: String,
        rr_type: ResourceRecordType,
        class: u16,
        ttl: u32,
        rdlength: u16,
        rdata: String,
    ) -> (r: Self)
        ensures
            r@ == (RecordModel {
                name: name@,
                rr_type: type_of_code(code_of(rr_type)),
                class,
                ttl,
                rdlength,
                rdata: rdata@,
            }),
            is_canonical(r@.rr_type),
    {
        Self { name, rr_type: rr_type.canonical(), class, ttl, rdlength, rdata }
    }

    /// The name that the record is about.
    pub fn get_name(&self) -> (r: &str)
        ensures
            r@ == self@.name,
    {
        self.name.as_str()
    }

    /// The record's type.
    pub fn get_type(&self) -> (r: ResourceRecordType)
        ensures
            r == self@.rr_type,
    {
        self.rr_type
    }

    /// The record's class.
    pub fn get_class(&self) -> (r: u16)
        ensures
            r == self@.class,
    {
        self.class
    }

    /// How long, in seconds, the record may be cached.
    pub fn get_ttl(&self) -> (r: u32)
        ensures
            r == self@.ttl,
    {
        self.ttl
    }

    /// The rdata length given on the wire.
    pub fn get_rdlength(&self) -> (r: u16)
        ensures
            r == self@.rdlength,
    {
        self.rdlength
    }

    /// The record's data as text.
    pub fn get_rdata(&self) -> (r: &str)
        ensures
            r@ == self@.rdata,
    {
        self.rdata.as_str()
    }

    /// The display name of the record's type.
    pub fn get_type_name(&self) -> (r: &str)
        ensures
            r@ == display_name(self@.rr_type),
    {
        self.rr_type.name()
    }

    /// Reads the rdata of a record of type `rr_type` whose wire length is `rdlength`.
    pub fn decode_rdata(
        deserializer: &mut Deserializer,
        rr_type: &ResourceRecordType,
        rdlength: u16,
    ) -> (r: Result<String, CodecError>)
        requires
            old(deserializer).wf(),
        ensures
            final(deserializer).wf(),
            final(deserializer).bytes() == old(deserializer).bytes(),
            match parse_rdata(
                old(deserializer).bytes(),
                old(deserializer).pos(),
                *rr_type,
                rdlength,
                MAX_COMPRESSION_COUNT as nat,
            ) {
                Ok((text, end)) => r is Ok && r->Ok_0@ == text && final(deserializer).pos() == end,
                Err(e) => r == Err::<String, CodecError>(e),
            },
    {
        ResourceRecord::decode_rdata_limited(deserializer, rr_type, rdlength, MAX_COMPRESSION_COUNT)
    }

    /// Reads the rdata as `decode_rdata` does, with at most `max_pointers` compression
    /// pointers followed in a row in a name.
    pub fn decode_rdata_limited(
        deserializer: &mut Deserializer,
        rr_type: &ResourceRecordType,
        rdlength: u16,
        max_pointers: u8,
    ) -> (r: Result<String, CodecError>)
        requires
            old(deserializer).wf(),
        ensures
            final(deserializer).wf(),
            final(deserializer).bytes() == old(deserializer).bytes(),
            match parse_rdata(
                old(deserializer).bytes(),
                old(deserializer).pos(),
                *rr_type,
                rdlength,
                max_pointers as nat,
            ) {
                Ok((text, end)) => r is Ok && r->Ok_0@ == text && final(deserializer).pos() == end,
                Err(e) => r == Err::<String, CodecError>(e),
            },
    {
        match rr_type {
            ResourceRecordType::NS | ResourceRecordType::CNAME => decode_domain_limited(
                deserializer,
                0,
                max_pointers,
            ),
            ResourceRecordType::A => match deserializer.read_slice3(rdlength as usize) {
                Ok(raw) => Ok(render_dotted_decimal(raw.as_slice())),
                Err(e) => Err(e),
            },
            _ => match deserializer.read_slice3(rdlength as usize) {
                Ok(raw) => Ok(lossy_string(raw.as_slice())),
                Err(e) => Err(e),
            },
        }
    }
}

impl Serializable for ResourceRecord {
    open spec fn wire(&self) -> Result<Seq<u8>, CodecError> {
        record_wire(self@)
    }

    fn serialize(&self, serializer: &mut Serializer) -> (r: Result<(), CodecError>) {
        let name = match encode_domain(self.name.as_str()) {
            Ok(v) => v,
            Err(e) => return Err(e),
        };
        serializer.extend(name.as_slice());
        let _ = self.rr_type.code().serialize(serializer);
        let _ = self.class.serialize(serializer);
        let _ = self.ttl.serialize(serializer);
        let _ = self.rdlength.serialize(serializer);
        serializer.extend(self.rdata.as_str().as_bytes());
        assert(final(serializer)@ =~= old(serializer)@ + record_wire(self@)->Ok_0);
        Ok(())
    }
}

impl Deserializable for ResourceRecord {
    open spec fn parse(buf: Seq<u8>, pos: int, limit: nat) -> Result<(RecordModel, int), CodecError> {
        parse_record(buf, pos, limit)
    }

    open spec fn jumps_below(buf: Seq<u8>, pos: int, limit: nat, k: int) -> bool {
        name_jumps_below(buf, pos, 0, limit, k) && match parse_name(buf, pos, 0, limit) {
            Ok((_, p)) => (p + 10 <= k && p + 10 <= buf.len() && is_name_type(
                type_of_code(be_u16(buf[p], buf[p + 1])),
            )) ==> name_jumps_below(buf, p + 10, 0, limit, k),
            Err(_) => true,
        }
    }

    proof fn lemma_prefix(buf: Seq<u8>, pos: int, limit: nat, k: int) {
        let pre = buf.subrange(0, k);
        lemma_name_prefix(buf, pos, 0, limit, k);
        lemma_name_end_after(buf, pos, 0, limit);
        let p = parse_name(buf, pos, 0, limit)->Ok_0.1;
        let t = type_of_code(be_u16(buf[p], buf[p + 1]));
        let rdlength = be_u16(buf[p + 8], buf[p + 9]);
        if is_name_type(t) {
            lemma_name_end_after(buf, p + 10, 0, limit);
        }
        if parse_name(pre, pos, 0, limit) == parse_name(buf, pos, 0, limit) && p + 10 <= k {
            assert(forall|i: int| 0 <= i < 10 ==> #[trigger] pre[p + i] == buf[p + i]);
            if is_name_type(t) {
                lemma_name_prefix(buf, p + 10, 0, limit, k);
            } else if p + 10 + rdlength <= k {
                assert(pre.subrange(p + 10, p + 10 + rdlength) =~= buf.subrange(
                    p + 10,
                    p + 10 + rdlength,
                ));
            }
        }
    }

    fn deserializable_with(deserializer: &mut Deserializer, max_pointers: u8) -> (r: Result<
        ResourceRecord,
        CodecError,
    >) {
        let name = match decode_domain_limited(deserializer, 0, max_pointers) {
            Ok(n) => n,
            Err(e) => return Err(e),
        };
        let mut fixed = [0u8; 10];
        match deserializer.read_slice2(&mut fixed) {
            Ok(()) => {},
            Err(e) => return Err(e),
        }
        let rr_type = ResourceRecordType::from_code(u16_from_be(fixed[0], fixed[1]));
        let class = u16_from_be(fixed[2], fixed[3]);
        let ttl = u32_from_be(fixed[4], fixed[5], fixed[6], fixed[7]);
        let rdlength = u16_from_be(fixed[8], fixed[9]);
        let rdata = match ResourceRecord::decode_rdata_limited(
            deserializer,
            &rr_type,
            rdlength,
            max_pointers,
        ) {
            Ok(t) => t,
            Err(e) => return Err(e),
        };
        Ok(ResourceRecord { name, rr_type, class, ttl, rdlength, rdata })
    }
}

} // verus!
