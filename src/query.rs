use vstd::prelude::*;

use crate::answer::{code_of, type_of_code, ResourceRecordType};
use crate::de::{be_u16, Deserializable, Deserializer};
use crate::error::CodecError;
use crate::name::{decode_domain_limited, encode_domain, name_wire, parse_name};
use crate::name_laws::{lemma_name_end_after, lemma_name_prefix, name_jumps_below};
use crate::se::{u16_be, Serializable, Serializer};

verus! {

/// What a query can ask for.
#[derive(Clone, Copy, Debug, PartialEq, Eq, Structural)]
pub enum QueryType {
    /// A host address.
    A,
    /// An authoritative name server.
    NS,
    /// The canonical name for an alias.
    CNAME,
}

/// The record type that a query type asks for.
pub open spec fn record_type_of(q: QueryType) -> ResourceRecordType {
    match q {
        QueryType::A => ResourceRecordType::A,
        QueryType::NS => ResourceRecordType::NS,
        QueryType::CNAME => ResourceRecordType::CNAME,
    }
}

impl QueryType {
    /// The record type that the query type asks for.
    pub fn record_type(&self) -> (r: ResourceRecordType)
        ensures
            r == record_type_of(*self),
    {
        match self {
            QueryType::A => ResourceRecordType::A,
            QueryType::NS => ResourceRecordType::NS,
            QueryType::CNAME => ResourceRecordType::CNAME,
        }
    }
}

/// One entry of the question section.
#[derive(Debug, PartialEq, Eq)]
pub struct Question {
    /// The dotted name asked about.
    pub qname: String,
    /// The record type asked for; any code read from the wire is kept.
    pub qtype: ResourceRecordType,
    /// The class asked for (1 is the Internet).
    pub qclass: u16,
}

/// What a question holds.
pub struct QuestionModel {
    pub qname: Seq<char>,
    pub qtype: ResourceRecordType,
    pub qclass: u16,
}

impl View for Question {
    type V = QuestionModel;

    open spec fn view(&self) -> QuestionModel {
        QuestionModel { qname: self.qname@, qtype: self.qtype, qclass: self.qclass }
    }
}

/// The bytes that a question is sent as, or `LabelTooLong`.
pub open spec fn question_wire(q: QuestionModel) -> Result<Seq<u8>, CodecError> {
    match name_wire(q.qname) {
        Some(w) => Ok(w + u16_be(code_of(q.qtype)) + u16_be(q.qclass)),
        None => Err(CodecError::LabelTooLong),
    }
}

/// The question read at `pos` of `buf`, with at most `limit` compression pointers followed
/// in a row.
pub open spec fn parse_question(buf: Seq<u8>, pos: int, limit: nat) -> Result<
    (QuestionModel, int),
    CodecError,
> {
    match parse_name(buf, pos, 0, limit) {
        Ok((n, p)) => if p + 4 <= buf.len() {
            Ok(
                (
                    QuestionModel {
                        qname: n,
                        qtype: type_of_code(be_u16(buf[p], buf[p + 1])),
                        qclass: be_u16(buf[p + 2], buf[p + 3]),
                    },
                    p + 4,
                ),
            )
        } else {
            Err(CodecError::Truncated)
        },
        Err(e) => Err(e),
    }
}

impl Question {
    /// A question for `domain` in the Internet class.
    pub fn new(domain: &str, query_type: QueryType) -> (r: Self)
        ensures
            r@ == (QuestionModel {
                qname: domain@,
                qtype: record_type_of(query_type),
                qclass: 1,
            }),
    {
        Self { qname: domain.to_owned(), qtype: query_type.record_type(), qclass: 1 }
    }

    /// Encodes a dotted name as `encode_domain` does.
    pub fn encode_domain(domain: &str) -> (r: Result<Vec<u8>, CodecError>)
        ensures
            match name_wire(domain@) {
                Some(w) => r is Ok && r->Ok_0@ == w,
                None => r == Err::<Vec<u8>, CodecError>(CodecError::LabelTooLong),
            },
    {
        encode_domain(domain)
    }
}

impl Serializable for Question {
    open spec fn wire(&self) -> Result<Seq<u8>, CodecError> {
        question_wire(self@)
    }

    fn serialize(&self, serializer: &mut Serializer) -> (r: Result<(), CodecError>) {
        let name = match encode_domain(self.qname.as_str()) {
            Ok(v) => v,
            Err(e) => return Err(e),
        };
        serializer.extend(name.as_slice());
        let _ = self.qtype.code().serialize(serializer);
        let _ = self.qclass.serialize(serializer);
        assert(final(serializer)@ =~= old(serializer)@ + question_wire(self@)->Ok_0);
        Ok(())
    }
}

impl Deserializable for Question {
    open spec fn parse(buf: Seq<u8>, pos: int, limit: nat) -> Result<(QuestionModel, int), CodecError> {
        parse_question(buf, pos, limit)
    }

    open spec fn jumps_below(buf: Seq<u8>, pos: int, limit: nat, k: int) -> bool {
        name_jumps_below(buf, pos, 0, limit, k)
    }

    proof fn lemma_prefix(buf: Seq<u8>, pos: int, limit: nat, k: int) {
        lemma_name_prefix(buf, pos, 0, limit, k);
        lemma_name_end_after(buf, pos, 0, limit);
        let pre = buf.subrange(0, k);
        let p = parse_name(buf, pos, 0, limit)->Ok_0.1;
        if parse_name(pre, pos, 0, limit) == parse_name(buf, pos, 0, limit) && p + 4 <= k {
            assert(pre[p] == buf[p] && pre[p + 1] == buf[p + 1]);
            assert(pre[p + 2] == buf[p + 2] && pre[p + 3] == buf[p + 3]);
        }
    }

    fn deserializable_with(deserializer: &mut Deserializer, max_pointers: u8) -> (r: Result<
        Question,
        CodecError,
    >) {
        let qname = match decode_domain_limited(deserializer, 0, max_pointers) {
            Ok(n) => n,
            Err(e) => return Err(e),
        };
        let code = match u16::deserializable(deserializer) {
            Ok(v) => v,
            Err(e) => return Err(e),
        };
        let qclass = match u16::deserializable(deserializer) {
            Ok(v) => v,
            Err(e) => return Err(e),
        };
        Ok(Question { qname, qtype: ResourceRecordType::from_code(code), qclass })
    }
}

} // verus!
