use vstd::prelude::*;

use crate::answer::{RecordModel, ResourceRecord};
use crate::de::{Deserializable, Deserializer};
use crate::error::CodecError;
use crate::header::{header_wire, parse_header, Header};
use crate::name::{parse_name, MAX_COMPRESSION_COUNT};
use crate::name_laws::{lemma_backward_jumps_below, pointers_backward};
use crate::query::{question_wire, record_type_of, QueryType, Question, QuestionModel};
use crate::se::{Serializable, Serializer};

verus! {

/// The models of a sequence of values.
pub open spec fn views<T: View>(s: Seq<T>) -> Seq<T::V> {
    s.map_values(|x: T| x@)
}

/// `n` values of `T` read one after another from `pos` of `buf`, with at most `limit`
/// compression pointers followed in a row, and the position after them; the first error
/// stops the reading.
pub open spec fn parse_many<T: Deserializable>(buf: Seq<u8>, pos: int, n: nat, limit: nat) -> Result<
    (Seq<T::V>, int),
    CodecError,
>
    decreases n,
{
    if n == 0 {
        Ok((seq![], pos))
    } else {
        match parse_many::<T>(buf, pos, (n - 1) as nat, limit) {
            Ok((items, p)) => match T::parse(buf, p, limit) {
                Ok((x, end)) => Ok((items.push(x), end)),
                Err(e) => Err(e),
            },
            Err(e) => Err(e),
        }
    }
}

/// Whether reading `n` values of `T` one after another from `pos` of `buf` meets no
/// compression pointer that lies wholly before `k` and leads to an offset at or past `k`.
pub open spec fn many_jumps_below<T: Deserializable>(
    buf: Seq<u8>,
    pos: int,
    n: nat,
    limit: nat,
    k: int,
) -> bool
    decreases n,
{
    n == 0 || (many_jumps_below::<T>(buf, pos, (n - 1) as nat, limit, k) && match parse_many::<T>(
        buf,
        pos,
        (n - 1) as nat,
        limit,
    ) {
        Ok((_, p)) => T::jumps_below(buf, p, limit, k),
        Err(_) => true,
    })
}

/// Reading `n` values from the first `k` bytes of `buf` gives what reading them from all of
/// `buf` gives, or `Truncated`; and `Truncated` where they start before `k` and run past
/// it; as long as no pointer followed leads past `k`.
pub proof fn lemma_many_prefix<T: Deserializable>(
    buf: Seq<u8>,
    pos: int,
    n: nat,
    limit: nat,
    k: int,
)
    requires
        parse_many::<T>(buf, pos, n, limit) is Ok,
        many_jumps_below::<T>(buf, pos, n, limit, k),
        0 <= k <= buf.len(),
    ensures
        parse_many::<T>(buf.subrange(0, k), pos, n, limit) == parse_many::<T>(buf, pos, n, limit)
            || parse_many::<T>(buf.subrange(0, k), pos, n, limit) == Err::<
            (Seq<T::V>, int),
            CodecError,
        >(CodecError::Truncated),
        pos <= k < parse_many::<T>(buf, pos, n, limit)->Ok_0.1 ==> parse_many::<T>(
            buf.subrange(0, k),
            pos,
            n,
            limit,
        ) == Err::<(Seq<T::V>, int), CodecError>(CodecError::Truncated),
    decreases n,
{
    if n > 0 {
        lemma_many_prefix::<T>(buf, pos, (n - 1) as nat, limit, k);
        let p = parse_many::<T>(buf, pos, (n - 1) as nat, limit)->Ok_0.1;
        T::lemma_prefix(buf, p, limit, k);
    }
}

/// The bytes of the values one after another, or the first error met.
pub open spec fn wire_many<T: Serializable>(items: Seq<T>) -> Result<Seq<u8>, CodecError>
    decreases items.len(),
{
    if items.len() == 0 {
        Ok(seq![])
    } else {
        match wire_many(items.drop_last()) {
            Ok(w) => match items.last().wire() {
                Ok(x) => Ok(w + x),
                Err(e) => Err(e),
            },
            Err(e) => Err(e),
        }
    }
}

/// Reads `n` values one after another, with at most `max_pointers` compression pointers
/// followed in a row.
pub fn deserialize_many<T: Deserializable>(
    deserializer: &mut Deserializer,
    n: u16,
    max_pointers: u8,
) -> (r: Result<Vec<T>, CodecError>)
    requires
        old(deserializer).wf(),
    ensures
        final(deserializer).wf(),
        final(deserializer).bytes() == old(deserializer).bytes(),
        match parse_many::<T>(
            old(deserializer).bytes(),
            old(deserializer).pos(),
            n as nat,
            max_pointers as nat,
        ) {
            Ok((items, end)) => r is Ok && views(r->Ok_0@) == items && final(deserializer).pos()
                == end,
            Err(e) => r == Err::<Vec<T>, CodecError>(e),
        },
{
    let ghost buf = deserializer.bytes();
    let ghost start = deserializer.pos();
    let mut out: Vec<T> = Vec::new();
    let mut i: u16 = 0;
    assert(views(out@) =~= Seq::<T::V>::empty());
    while i < n
        invariant
            0 <= i <= n,
            deserializer.wf(),
            deserializer.bytes() == buf,
            buf == old(deserializer).bytes(),
            start == old(deserializer).pos(),
            parse_many::<T>(buf, start, i as nat, max_pointers as nat) == Ok::<(Seq<T::V>, int), CodecError>(
                (views(out@), deserializer.pos()),
            ),
        decreases n - i,
    {
        let x = match T::deserializable_with(deserializer, max_pointers) {
            Ok(x) => x,
            Err(e) => {
                proof {
                    lemma_parse_many_error::<T>(buf, start, i as nat, n as nat, max_pointers as nat);
                }
                return Err(e);
            },
        };
        let ghost prev = out@;
        out.push(x);
        assert(views(out@) =~= views(prev).push(x@));
        i = i + 1;
    }
    Ok(out)
}

/// Appends the values one after another; on an error nothing is appended.
pub fn serialize_many<T: Serializable>(items: &Vec<T>, serializer: &mut Serializer) -> (r: Result<
    (),
    CodecError,
>)
    ensures
        match wire_many(items@) {
            Ok(w) => r is Ok && final(serializer)@ == old(serializer)@ + w,
            Err(e) => r == Err::<(), CodecError>(e) && final(serializer)@ == old(serializer)@,
        },
{
    let mut local = Serializer::new();
    let n = items.len();
    let mut i: usize = 0;
    while i < n
        invariant
            0 <= i <= n,
            n == items@.len(),
            wire_many(items@.subrange(0, i as int)) == Ok::<Seq<u8>, CodecError>(local@),
        decreases n - i,
    {
        assert(items@.subrange(0, i + 1).drop_last() =~= items@.subrange(0, i as int));
        match items[i].serialize(&mut local) {
            Ok(()) => {},
            Err(e) => {
                proof {
                    lemma_wire_many_error(items@, i as int);
                }
                return Err(e);
            },
        }
        i = i + 1;
    }
    assert(items@.subrange(0, n as int) =~= items@);
    let bytes = local.into_bytes();
    serializer.extend(bytes.as_slice());
    Ok(())
}

/// Once the item after the first `i` fails, reading `n > i` items fails with its error.
proof fn lemma_parse_many_error<T: Deserializable>(
    buf: Seq<u8>,
    pos: int,
    i: nat,
    n: nat,
    limit: nat,
)
    requires
        i < n,
        parse_many::<T>(buf, pos, i, limit) is Ok,
        T::parse(buf, parse_many::<T>(buf, pos, i, limit)->Ok_0.1, limit) is Err,
    ensures
        parse_many::<T>(buf, pos, n, limit) == Err::<(Seq<T::V>, int), CodecError>(
            T::parse(buf, parse_many::<T>(buf, pos, i, limit)->Ok_0.1, limit)->Err_0,
        ),
    decreases n,
{
    if n > i + 1 {
        lemma_parse_many_error::<T>(buf, pos, i, (n - 1) as nat, limit);
    }
}

/// Once an item fails, the whole sequence fails with the first failure.
proof fn lemma_wire_many_error<T: Serializable>(items: Seq<T>, i: int)
    requires
        0 <= i < items.len(),
        wire_many(items.subrange(0, i)) is Ok,
        items[i].wire() is Err,
    ensures
        wire_many(items) == Err::<Seq<u8>, CodecError>(items[i].wire()->Err_0),
    decreases items.len() - i,
{
    if i == items.len() - 1 {
        assert(items.drop_last() =~= items.subrange(0, i));
    } else {
        assert(items.drop_last().subrange(0, i) =~= items.subrange(0, i));
        lemma_wire_many_error(items.drop_last(), i);
    }
}

} // verus!

verus! {

/// One query or response: the header and the four sections.
#[derive(Debug, PartialEq, Eq)]
pub struct Message {
    pub header: Header,
    pub questions: Vec<Question>,
    pub answers: Vec<ResourceRecord>,
    pub authorities: Vec<ResourceRecord>,
    pub additionals: Vec<ResourceRecord>,
}

/// What a message holds.
pub struct MessageModel {
    pub header: Header,
    pub questions: Seq<QuestionModel>,
    pub answers: Seq<RecordModel>,
    pub authorities: Seq<RecordModel>,
    pub additionals: Seq<RecordModel>,
}

impl View for Message {
    type V = MessageModel;

    open spec fn view(&self) -> MessageModel {
        MessageModel {
            header: self.header,
            questions: views(self.questions@),
            answers: views(self.answers@),
            authorities: views(self.authorities@),
            additionals: views(self.additionals@),
        }
    }
}

/// The header of a query: recursion desired, one question, every other field zero.
pub open spec fn query_header(id: u16) -> Header {
    Header {
        id,
        qr: false,
        opcode: 0,
        aa: false,
        tc: false,
        rd: true,
        ra: false,
        z: 0,
        rcode: 0,
        qdcount: 1,
        ancount: 0,
        nscount: 0,
        arcount: 0,
    }
}

/// The bytes of a query for `domain` with id `id`: the query header, then the one question
/// (its name, its type and the Internet class); or `LabelTooLong`.
pub open spec fn query_wire(id: u16, domain: Seq<char>, qtype: QueryType) -> Result<
    Seq<u8>,
    CodecError,
> {
    match question_wire(
        QuestionModel { qname: domain, qtype: record_type_of(qtype), qclass: 1 },
    ) {
        Ok(q) => Ok(header_wire(query_header(id)) + q),
        Err(e) => Err(e),
    }
}

/// The message read at `pos` of `buf`: the header, then as many questions and records in
/// each section as the header counts, in that order, with at most `limit` compression
/// pointers followed in a row in a name.
pub open spec fn parse_message_at(buf: Seq<u8>, pos: int, limit: nat) -> Result<
    (MessageModel, int),
    CodecError,
> {
    match parse_header(buf, pos) {
        Ok((h, at_qd)) => match parse_many::<Question>(buf, at_qd, h.qdcount as nat, limit) {
            Ok((qs, at_an)) => match parse_many::<ResourceRecord>(buf, at_an, h.ancount as nat, limit) {
                Ok((ans, at_ns)) => match parse_many::<ResourceRecord>(buf, at_ns, h.nscount as nat, limit) {
                    Ok((ns, at_ar)) => match parse_many::<ResourceRecord>(
                        buf,
                        at_ar,
                        h.arcount as nat, limit,
                    ) {
                        Ok((ar, at_end)) => Ok(
                            (
                                MessageModel {
                                    header: h,
                                    questions: qs,
                                    answers: ans,
                                    authorities: ns,
                                    additionals: ar,
                                },
                                at_end,
                            ),
                        ),
                        Err(e) => Err(e),
                    },
                    Err(e) => Err(e),
                },
                Err(e) => Err(e),
            },
            Err(e) => Err(e),
        },
        Err(e) => Err(e),
    }
}

/// The bytes that a message is sent as: the header, then the questions, answers,
/// authorities and additionals in that order; or the first error met.
pub open spec fn message_wire(m: Message) -> Result<Seq<u8>, CodecError> {
    match (
        wire_many(m.questions@),
        wire_many(m.answers@),
        wire_many(m.authorities@),
        wire_many(m.additionals@),
    ) {
        (Err(e), _, _, _) => Err(e),
        (Ok(_), Err(e), _, _) => Err(e),
        (Ok(_), Ok(_), Err(e), _) => Err(e),
        (Ok(_), Ok(_), Ok(_), Err(e)) => Err(e),
        (Ok(q), Ok(a), Ok(n), Ok(d)) => Ok(m.header.wire()->Ok_0 + q + a + n + d),
    }
}

impl Message {
    /// A query for `domain`: a fresh header with id `query_id` asking for recursion, one
    /// question in the Internet class, and no records.
    pub fn new(query_id: u16, domain: &str, query_type: QueryType) -> (r: Self)
        ensures
            r@.header == query_header(query_id),
            r@.questions == seq![
                QuestionModel { qname: domain@, qtype: record_type_of(query_type), qclass: 1 },
            ],
            r@.answers.len() == 0,
            r@.authorities.len() == 0,
            r@.additionals.len() == 0,
    {
        let mut questions: Vec<Question> = Vec::new();
        questions.push(Question::new(domain, query_type));
        let m = Self {
            header: Header::new(query_id, false, 0, false, false, true, false, 0, 1, 0, 0, 0),
            questions,
            answers: Vec::new(),
            authorities: Vec::new(),
            additionals: Vec::new(),
        };
        assert(m@.questions =~= seq![
            QuestionModel { qname: domain@, qtype: record_type_of(query_type), qclass: 1 },
        ]);
        m
    }

    /// The records of the answer section.
    pub fn get_answers(&self) -> (r: &[ResourceRecord])
        ensures
            r@ == self.answers@,
    {
        self.answers.as_slice()
    }
}

impl Serializable for Message {
    open spec fn wire(&self) -> Result<Seq<u8>, CodecError> {
        message_wire(*self)
    }

    fn serialize(&self, serializer: &mut Serializer) -> (r: Result<(), CodecError>) {
        let mut local = Serializer::new();
        let _ = self.header.serialize(&mut local);
        match serialize_many(&self.questions, &mut local) {
            Ok(()) => {},
            Err(e) => return Err(e),
        }
        match serialize_many(&self.answers, &mut local) {
            Ok(()) => {},
            Err(e) => return Err(e),
        }
        match serialize_many(&self.authorities, &mut local) {
            Ok(()) => {},
            Err(e) => return Err(e),
        }
        match serialize_many(&self.additionals, &mut local) {
            Ok(()) => {},
            Err(e) => return Err(e),
        }
        let bytes = local.into_bytes();
        serializer.extend(bytes.as_slice());
        Ok(())
    }
}

impl Deserializable for Message {
    open spec fn parse(buf: Seq<u8>, pos: int, limit: nat) -> Result<(MessageModel, int), CodecError> {
        parse_message_at(buf, pos, limit)
    }

    open spec fn jumps_below(buf: Seq<u8>, pos: int, limit: nat, k: int) -> bool {
        match parse_header(buf, pos) {
            Ok((h, at_qd)) => {
                &&& many_jumps_below::<Question>(buf, at_qd, h.qdcount as nat, limit, k)
                &&& match parse_many::<Question>(buf, at_qd, h.qdcount as nat, limit) {
                    Ok((_, at_an)) => {
                        &&& many_jumps_below::<ResourceRecord>(buf, at_an, h.ancount as nat, limit, k)
                        &&& match parse_many::<ResourceRecord>(buf, at_an, h.ancount as nat, limit) {
                            Ok((_, at_ns)) => {
                                &&& many_jumps_below::<ResourceRecord>(
                                    buf,
                                    at_ns,
                                    h.nscount as nat,
                                    limit, k,
                                )
                                &&& match parse_many::<ResourceRecord>(
                                    buf,
                                    at_ns,
                                    h.nscount as nat, limit,
                                ) {
                                    Ok((_, at_ar)) => many_jumps_below::<ResourceRecord>(
                                        buf,
                                        at_ar,
                                        h.arcount as nat,
                                        limit, k,
                                    ),
                                    Err(_) => true,
                                }
                            },
                            Err(_) => true,
                        }
                    },
                    Err(_) => true,
                }
            },
            Err(_) => true,
        }
    }

    proof fn lemma_prefix(buf: Seq<u8>, pos: int, limit: nat, k: int) {
        let pre = buf.subrange(0, k);
        Header::lemma_prefix(buf, pos, limit, k);
        let (h, at_qd) = parse_header(buf, pos)->Ok_0;
        if parse_header(pre, pos) == parse_header(buf, pos) {
            lemma_many_prefix::<Question>(buf, at_qd, h.qdcount as nat, limit, k);
            let at_an = parse_many::<Question>(buf, at_qd, h.qdcount as nat, limit)->Ok_0.1;
            lemma_many_prefix::<ResourceRecord>(buf, at_an, h.ancount as nat, limit, k);
            let at_ns = parse_many::<ResourceRecord>(buf, at_an, h.ancount as nat, limit)->Ok_0.1;
            lemma_many_prefix::<ResourceRecord>(buf, at_ns, h.nscount as nat, limit, k);
            let at_ar = parse_many::<ResourceRecord>(buf, at_ns, h.nscount as nat, limit)->Ok_0.1;
            lemma_many_prefix::<ResourceRecord>(buf, at_ar, h.arcount as nat, limit, k);
        }
    }

    fn deserializable_with(deserializer: &mut Deserializer, max_pointers: u8) -> (r: Result<
        Message,
        CodecError,
    >) {
        let header = match Header::deserializable_with(deserializer, max_pointers) {
            Ok(h) => h,
            Err(e) => return Err(e),
        };
        let questions = match deserialize_many::<Question>(deserializer, header.num_questions(), max_pointers) {
            Ok(v) => v,
            Err(e) => return Err(e),
        };
        let answers = match deserialize_many::<ResourceRecord>(deserializer, header.num_answers(), max_pointers) {
            Ok(v) => v,
            Err(e) => return Err(e),
        };
        let authorities = match deserialize_many::<ResourceRecord>(deserializer, header.num_authorities(), max_pointers) {
            Ok(v) => v,
            Err(e) => return Err(e),
        };
        let additionals = match deserialize_many::<ResourceRecord>(deserializer, header.num_additionals(), max_pointers) {
            Ok(v) => v,
            Err(e) => return Err(e),
        };
        Ok(Message { header, questions, answers, authorities, additionals })
    }
}

/// The bytes that `src` is written as.
pub fn serialize<S: Serializable>(src: &S) -> (r: Result<Vec<u8>, CodecError>)
    ensures
        match src.wire() {
            Ok(w) => r is Ok && r->Ok_0@ == w,
            Err(e) => r == Err::<Vec<u8>, CodecError>(e),
        },
{
    let mut serializer = Serializer::new();
    match src.serialize(&mut serializer) {
        Ok(()) => {},
        Err(e) => return Err(e),
    }
    assert(serializer@ =~= src.wire()->Ok_0);
    Ok(serializer.into_bytes())
}

/// Reads a `D` from the start of `src`; bytes after it are left unread.
pub fn deserialize<D: Deserializable>(src: &[u8]) -> (r: Result<D, CodecError>)
    ensures
        match D::parse(src@, 0, MAX_COMPRESSION_COUNT as nat) {
            Ok((v, _)) => r is Ok && r->Ok_0@ == v,
            Err(e) => r == Err::<D, CodecError>(e),
        },
{
    let mut deserializer = Deserializer::new(src);
    D::deserializable(&mut deserializer)
}

/// The bytes of a query for `domain` with id `id`.
pub fn build_query(id: u16, domain: &str, qtype: QueryType) -> (r: Result<Vec<u8>, CodecError>)
    ensures
        match query_wire(id, domain@, qtype) {
            Ok(w) => r is Ok && r->Ok_0@ == w,
            Err(e) => r == Err::<Vec<u8>, CodecError>(e),
        },
{
    let m = Message::new(id, domain, qtype);
    proof {
        lemma_query_wire(m, id, domain@, qtype);
    }
    serialize(&m)
}

/// A whole response read from the start of `bytes`.
pub fn parse_message(bytes: &[u8]) -> (r: Result<Message, CodecError>)
    ensures
        match parse_message_at(bytes@, 0, MAX_COMPRESSION_COUNT as nat) {
            Ok((m, _)) => r is Ok && r->Ok_0@ == m,
            Err(e) => r == Err::<Message, CodecError>(e),
        },
{
    deserialize::<Message>(bytes)
}

/// A whole response read from the start of `bytes`, with at most `max_pointers`
/// compression pointers followed in a row in a name.
pub fn parse_message_limited(bytes: &[u8], max_pointers: u8) -> (r: Result<Message, CodecError>)
    ensures
        match parse_message_at(bytes@, 0, max_pointers as nat) {
            Ok((m, _)) => r is Ok && r->Ok_0@ == m,
            Err(e) => r == Err::<Message, CodecError>(e),
        },
{
    let mut deserializer = Deserializer::new(bytes);
    Message::deserializable_with(&mut deserializer, max_pointers)
}

proof fn lemma_query_wire(m: Message, id: u16, domain: Seq<char>, qtype: QueryType)
    requires
        m@.header == query_header(id),
        m@.questions == seq![
            QuestionModel { qname: domain, qtype: record_type_of(qtype), qclass: 1 },
        ],
        m@.answers.len() == 0,
        m@.authorities.len() == 0,
        m@.additionals.len() == 0,
    ensures
        message_wire(m) == query_wire(id, domain, qtype),
{
    let qm = QuestionModel { qname: domain, qtype: record_type_of(qtype), qclass: 1 };
    assert(views(m.questions@).len() == m.questions@.len());
    assert(views(m.answers@).len() == m.answers@.len());
    assert(views(m.authorities@).len() == m.authorities@.len());
    assert(views(m.additionals@).len() == m.additionals@.len());
    assert(m@.questions[0] == qm);
    assert(m.questions@[0]@ == qm);
    lemma_message_wire_of_query(m);
}

proof fn lemma_message_wire_of_query(m: Message)
    requires
        m.questions@.len() == 1,
        m.answers@.len() == 0,
        m.authorities@.len() == 0,
        m.additionals@.len() == 0,
    ensures
        message_wire(m) == match question_wire(m.questions@[0]@) {
            Ok(q) => Ok::<Seq<u8>, CodecError>(header_wire(m.header) + q),
            Err(e) => Err(e),
        },
{
    let qs = m.questions@;
    assert(qs.drop_last() =~= Seq::<Question>::empty());
    assert(wire_many(qs.drop_last()) == Ok::<Seq<u8>, CodecError>(Seq::<u8>::empty()));
    assert(wire_many(m.answers@) == Ok::<Seq<u8>, CodecError>(Seq::<u8>::empty()));
    assert(wire_many(m.authorities@) == Ok::<Seq<u8>, CodecError>(Seq::<u8>::empty()));
    assert(wire_many(m.additionals@) == Ok::<Seq<u8>, CodecError>(Seq::<u8>::empty()));
    if let Ok(q) = question_wire(qs[0]@) {
        assert(Seq::<u8>::empty() + q =~= q);
        assert(wire_many(qs) == Ok::<Seq<u8>, CodecError>(q));
        assert(header_wire(m.header) + q + Seq::<u8>::empty() + Seq::<u8>::empty() + Seq::<
            u8,
        >::empty() =~= header_wire(m.header) + q);
    }
}

} // verus!

verus! {

/// A message that decodes from its first byte to its last, cut anywhere before its end,
/// fails to decode with `Truncated`, rather than reading past the cut; as long as no
/// compression pointer that lies before the cut and is followed leads into the part cut
/// off (such a pointer gives `OutOfRange` instead).
pub proof fn lemma_truncated_message(buf: Seq<u8>, limit: nat, k: int)
    requires
        parse_message_at(buf, 0, limit) is Ok,
        parse_message_at(buf, 0, limit)->Ok_0.1 == buf.len(),
        0 <= k < buf.len(),
        Message::jumps_below(buf, 0, limit, k),
    ensures
        parse_message_at(buf.subrange(0, k), 0, limit) == Err::<(MessageModel, int), CodecError>(
            CodecError::Truncated,
        ),
{
    Message::lemma_prefix(buf, 0, limit, k);
}

} // verus!

verus! {

proof fn lemma_many_jumps_below<T: Deserializable>(
    buf: Seq<u8>,
    pos: int,
    n: nat,
    limit: nat,
    k: int,
)
    requires
        forall|p: int| #[trigger] T::jumps_below(buf, p, limit, k),
    ensures
        many_jumps_below::<T>(buf, pos, n, limit, k),
    decreases n,
{
    if n > 0 {
        lemma_many_jumps_below::<T>(buf, pos, (n - 1) as nat, limit, k);
    }
}

/// Where every compression pointer leads backward, a message that decodes from its first
/// byte to its last, cut anywhere before its end, fails to decode with `Truncated`.
pub proof fn lemma_truncated_backward(buf: Seq<u8>, limit: nat, k: int)
    requires
        parse_message_at(buf, 0, limit) is Ok,
        parse_message_at(buf, 0, limit)->Ok_0.1 == buf.len(),
        0 <= k < buf.len(),
        pointers_backward(buf),
    ensures
        parse_message_at(buf.subrange(0, k), 0, limit) == Err::<(MessageModel, int), CodecError>(
            CodecError::Truncated,
        ),
{
    assert forall|p: int| #[trigger] Question::jumps_below(buf, p, limit, k) by {
        lemma_backward_jumps_below(buf, p, 0, limit, k);
    }
    assert forall|p: int| #[trigger] ResourceRecord::jumps_below(buf, p, limit, k) by {
        lemma_backward_jumps_below(buf, p, 0, limit, k);
        if let Ok((_, q)) = parse_name(buf, p, 0, limit) {
            lemma_backward_jumps_below(buf, q + 10, 0, limit, k);
        }
    }
    let (h, at_qd) = parse_header(buf, 0)->Ok_0;
    lemma_many_jumps_below::<Question>(buf, at_qd, h.qdcount as nat, limit, k);
    let at_an = parse_many::<Question>(buf, at_qd, h.qdcount as nat, limit)->Ok_0.1;
    lemma_many_jumps_below::<ResourceRecord>(buf, at_an, h.ancount as nat, limit, k);
    let at_ns = parse_many::<ResourceRecord>(buf, at_an, h.ancount as nat, limit)->Ok_0.1;
    lemma_many_jumps_below::<ResourceRecord>(buf, at_ns, h.nscount as nat, limit, k);
    let at_ar = parse_many::<ResourceRecord>(buf, at_ns, h.nscount as nat, limit)->Ok_0.1;
    lemma_many_jumps_below::<ResourceRecord>(buf, at_ar, h.arcount as nat, limit, k);
    lemma_truncated_message(buf, limit, k);
}

} // verus!
