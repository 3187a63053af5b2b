use vstd::prelude::*;
use vstd::string::StringExecFns;
use vstd::slice::slice_subrange;
use vstd::utf8::{decode_utf8, encode_utf8, valid_utf8};

use crate::de::Deserializer;
use crate::error::CodecError;
use crate::se::append_bytes;
use crate::text::utf8_string;

verus! {

/// The parts joined into one text, with a dot between each two.
pub open spec fn join_dot(parts: Seq<Seq<char>>) -> Seq<char>
    decreases parts.len(),
{
    if parts.len() == 0 {
        seq![]
    } else if parts.len() == 1 {
        parts[0]
    } else {
        join_dot(parts.drop_last()) + seq!['.'] + parts.last()
    }
}

/// Puts `acc` in front of the parts of a successful parse; an error stays.
pub open spec fn with_prefix(
    acc: Seq<Seq<char>>,
    p: Result<(Seq<Seq<char>>, int), CodecError>,
) -> Result<(Seq<Seq<char>>, int), CodecError> {
    match p {
        Ok((parts, end)) => Ok((acc + parts, end)),
        Err(e) => Err(e),
    }
}

/// Whether a length byte is the first byte of a compression pointer.
pub open spec fn is_pointer(l: u8) -> bool {
    l & 0xC0 == 0xC0
}

/// The 14-bit offset of a compression pointer made of `l` and `next`.
pub open spec fn pointer_offset(l: u8, next: u8) -> int {
    (l & 0x3F) as int * 256 + next as int
}

/// Reading the parts of a name at `pos` of `buf`, where `depth` pointers were followed to
/// get there and at most `limit` may be: each literal label is one part, and the name that
/// a pointer leads to is one last part. Gives the parts and the position after the name.
pub open spec fn parse_labels(buf: Seq<u8>, pos: int, depth: nat, limit: nat) -> Result<
    (Seq<Seq<char>>, int),
    CodecError,
>
    decreases limit + 1 - depth, buf.len() - pos,
{
    if pos < 0 || pos >= buf.len() {
        Err(CodecError::Truncated)
    } else {
        let l = buf[pos];
        if l == 0 {
            Ok((seq![], pos + 1))
        } else if is_pointer(l) {
            if depth > limit {
                Err(CodecError::TooManyPointers)
            } else if pos + 1 >= buf.len() {
                Err(CodecError::Truncated)
            } else {
                let off = pointer_offset(l, buf[pos + 1]);
                if off >= buf.len() {
                    Err(CodecError::OutOfRange)
                } else {
                    match parse_labels(buf, off, depth + 1, limit) {
                        Ok((parts, _)) => Ok((seq![join_dot(parts)], pos + 2)),
                        Err(e) => Err(e),
                    }
                }
            }
        } else {
            let end = pos + 1 + l;
            if end > buf.len() {
                Err(CodecError::Truncated)
            } else {
                let raw = buf.subrange(pos + 1, end);
                if !valid_utf8(raw) {
                    Err(CodecError::InvalidLabel)
                } else {
                    with_prefix(seq![decode_utf8(raw)], parse_labels(buf, end, depth, limit))
                }
            }
        }
    }
}

/// The name at `pos` of `buf` and the position after it.
pub open spec fn parse_name(buf: Seq<u8>, pos: int, depth: nat, limit: nat) -> Result<
    (Seq<char>, int),
    CodecError,
> {
    match parse_labels(buf, pos, depth, limit) {
        Ok((parts, end)) => Ok((join_dot(parts), end)),
        Err(e) => Err(e),
    }
}

proof fn lemma_join_push(parts: Seq<Seq<char>>, x: Seq<char>)
    requires
        parts.len() > 0,
    ensures
        join_dot(parts.push(x)) == join_dot(parts) + seq!['.'] + x,
{
    assert(parts.push(x).drop_last() =~= parts);
}

/// Past the limit, how far past makes no difference.
proof fn lemma_depth_past_limit(buf: Seq<u8>, pos: int, d1: nat, d2: nat, limit: nat)
    requires
        d1 > limit,
        d2 > limit,
    ensures
        parse_labels(buf, pos, d1, limit) == parse_labels(buf, pos, d2, limit),
    decreases buf.len() - pos,
{
    if 0 <= pos < buf.len() && buf[pos] != 0 && !is_pointer(buf[pos]) && pos + 1 + buf[pos]
        <= buf.len() {
        lemma_depth_past_limit(buf, pos + 1 + buf[pos], d1, d2, limit);
    }
}

proof fn lemma_prefix_push(
    acc: Seq<Seq<char>>,
    x: Seq<char>,
    p: Result<(Seq<Seq<char>>, int), CodecError>,
)
    ensures
        with_prefix(acc, with_prefix(seq![x], p)) == with_prefix(acc.push(x), p),
{
    if let Ok((parts, end)) = p {
        assert(acc + (seq![x] + parts) =~= acc.push(x) + parts);
    }
}

/// Decodes the name at the cursor, following compression pointers; `depth` pointers were
/// followed to get here, and at most `limit` may be.
fn decode_name_at(deserializer: &mut Deserializer, depth: usize, limit: usize) -> (r: Result<
    String,
    CodecError,
>)
    requires
        old(deserializer).wf(),
        limit < 256,
        depth <= limit + 1,
    ensures
        final(deserializer).wf(),
        final(deserializer).bytes() == old(deserializer).bytes(),
        match parse_name(old(deserializer).bytes(), old(deserializer).pos(), depth as nat, limit as nat) {
            Ok((n, end)) => r is Ok && r->Ok_0@ == n && final(deserializer).pos() == end,
            Err(e) => r == Err::<String, CodecError>(e),
        },
    decreases limit + 1 - depth,
{
    let ghost buf = deserializer.bytes();
    let ghost start = deserializer.pos();
    let ghost mut acc: Seq<Seq<char>> = seq![];
    let mut result = String::new();
    let mut first = true;
    loop
        invariant
            deserializer.wf(),
            deserializer.bytes() == buf,
            buf == old(deserializer).bytes(),
            start == old(deserializer).pos(),
            limit < 256,
            depth <= limit + 1,
            result@ == join_dot(acc),
            first == (acc.len() == 0),
            parse_labels(buf, start, depth as nat, limit as nat) == with_prefix(
                acc,
                parse_labels(buf, deserializer.pos(), depth as nat, limit as nat),
            ),
        decreases buf.len() - deserializer.pos(),
    {
        let label_len = match deserializer.read() {
            Ok(b) => b,
            Err(e) => return Err(e),
        };
        if label_len == 0 {
            assert(acc + seq![] =~= acc);
            return Ok(result);
        }
        if label_len & 0xC0 == 0xC0 {
            if depth > limit {
                return Err(CodecError::TooManyPointers);
            }
            let next = match deserializer.read() {
                Ok(b) => b,
                Err(e) => return Err(e),
            };
            let offset = ((label_len & 0x3F) as usize) * 256 + next as usize;
            let saved = match deserializer.reset_cursor(offset) {
                Ok(p) => p,
                Err(e) => return Err(e),
            };
            let inner = match decode_name_at(deserializer, depth + 1, limit) {
                Ok(s) => s,
                Err(e) => return Err(e),
            };
            deserializer.restore_cursor(saved);
            proof {
                reveal_strlit(".");
                assert(acc + seq![inner@] =~= acc.push(inner@));
                if acc.len() > 0 {
                    lemma_join_push(acc, inner@);
                } else {
                    assert(acc.push(inner@) =~= seq![inner@]);
                }
            }
            if first {
                result = inner;
            } else {
                result.append(".");
                result.append(inner.as_str());
            }
            return Ok(result);
        }
        let raw = match deserializer.read_slice3(label_len as usize) {
            Ok(v) => v,
            Err(e) => return Err(e),
        };
        let label = match utf8_string(raw) {
            Some(s) => s,
            None => return Err(CodecError::InvalidLabel),
        };
        proof {
            lemma_prefix_push(acc, label@, parse_labels(buf, deserializer.pos(), depth as nat, limit as nat));
            reveal_strlit(".");
            if acc.len() > 0 {
                lemma_join_push(acc, label@);
            } else {
                assert(acc.push(label@) =~= seq![label@]);
            }
        }
        if first {
            result = label;
        } else {
            result.append(".");
            result.append(label.as_str());
        }
        first = false;
        proof {
            acc = acc.push(label@);
        }
    }
}

} // verus!

verus! {

/// How many compression pointers a name may follow in a row.
pub const MAX_COMPRESSION_COUNT: u8 = 126;

/// How many bytes a label may hold.
pub const MAX_LABEL_LEN: u8 = 63;

/// Decodes the name at the cursor, where `recursion_count` pointers were followed to get
/// here, and leaves the cursor after it (after the first pointer, where there is one).
pub fn decode_domain(deserializer: &mut Deserializer, recursion_count: u8) -> (r: Result<
    String,
    CodecError,
>)
    requires
        old(deserializer).wf(),
    ensures
        final(deserializer).wf(),
        final(deserializer).bytes() == old(deserializer).bytes(),
        match parse_name(
            old(deserializer).bytes(),
            old(deserializer).pos(),
            recursion_count as nat,
            MAX_COMPRESSION_COUNT as nat,
        ) {
            Ok((n, end)) => r is Ok && r->Ok_0@ == n && final(deserializer).pos() == end,
            Err(e) => r == Err::<String, CodecError>(e),
        },
{
    decode_domain_limited(deserializer, recursion_count, MAX_COMPRESSION_COUNT)
}

/// Decodes the name at the cursor as `decode_domain` does, with at most `max_pointers`
/// compression pointers followed in a row.
pub fn decode_domain_limited(
    deserializer: &mut Deserializer,
    recursion_count: u8,
    max_pointers: u8,
) -> (r: Result<String, CodecError>)
    requires
        old(deserializer).wf(),
    ensures
        final(deserializer).wf(),
        final(deserializer).bytes() == old(deserializer).bytes(),
        match parse_name(
            old(deserializer).bytes(),
            old(deserializer).pos(),
            recursion_count as nat,
            max_pointers as nat,
        ) {
            Ok((n, end)) => r is Ok && r->Ok_0@ == n && final(deserializer).pos() == end,
            Err(e) => r == Err::<String, CodecError>(e),
        },
{
    if recursion_count > max_pointers {
        proof {
            lemma_depth_past_limit(
                deserializer.bytes(),
                deserializer.pos(),
                recursion_count as nat,
                max_pointers as nat + 1,
                max_pointers as nat,
            );
        }
        return decode_name_at(deserializer, max_pointers as usize + 1, max_pointers as usize);
    }
    decode_name_at(deserializer, recursion_count as usize, max_pointers as usize)
}

} // verus!

verus! {

/// The parts of `b` between its dot bytes, in order; a `b` without a dot is one part.
pub open spec fn split_dots(b: Seq<u8>) -> Seq<Seq<u8>>
    decreases b.len(),
{
    if b.len() == 0 {
        seq![seq![]]
    } else {
        let s = split_dots(b.drop_last());
        if b.last() == 0x2E {
            s.push(seq![])
        } else {
            s.update(s.len() - 1, s.last().push(b.last()))
        }
    }
}

/// A label on the wire: its length byte and its bytes; an empty part is left out.
pub open spec fn label_wire(p: Seq<u8>) -> Seq<u8> {
    if p.len() == 0 {
        seq![]
    } else {
        seq![p.len() as u8] + p
    }
}

/// The labels on the wire, one after the other.
pub open spec fn labels_wire(parts: Seq<Seq<u8>>) -> Seq<u8>
    decreases parts.len(),
{
    if parts.len() == 0 {
        seq![]
    } else {
        labels_wire(parts.drop_last()) + label_wire(parts.last())
    }
}

/// Whether one of the parts is longer than `max_label` bytes.
pub open spec fn has_long_label(parts: Seq<Seq<u8>>, max_label: nat) -> bool {
    exists|i: int| 0 <= i < parts.len() && #[trigger] parts[i].len() > max_label
}

/// The wire form of a dotted name: its UTF-8 bytes split at the dots, each nonempty part
/// as a label, then a zero byte; nothing where a part is longer than `max_label` bytes.
#[verifier::opaque]
pub open spec fn name_wire_with(name: Seq<char>, max_label: nat) -> Option<Seq<u8>> {
    let parts = split_dots(encode_utf8(name));
    if has_long_label(parts, max_label) {
        None
    } else {
        Some(labels_wire(parts) + seq![0u8])
    }
}

/// The wire form of a dotted name with labels of at most `MAX_LABEL_LEN` bytes.
pub open spec fn name_wire(name: Seq<char>) -> Option<Seq<u8>> {
    name_wire_with(name, MAX_LABEL_LEN as nat)
}

/// Appends the part `b[start..end]` to `done` and to its wire form in `out`.
fn finish_part(
    out: &mut Vec<u8>,
    too_long: &mut bool,
    b: &[u8],
    start: usize,
    end: usize,
    max_label: u8,
    Ghost(done): Ghost<Seq<Seq<u8>>>,
)
    requires
        start <= end <= b@.len(),
        *old(too_long) == has_long_label(done, max_label as nat),
        !*old(too_long) ==> old(out)@ == labels_wire(done),
    ensures
        *final(too_long) == has_long_label(done.push(b@.subrange(start as int, end as int)), max_label as nat),
        !*final(too_long) ==> final(out)@ == labels_wire(
            done.push(b@.subrange(start as int, end as int)),
        ),
{
    let ghost part = b@.subrange(start as int, end as int);
    let ghost all = done.push(part);
    assert(all.drop_last() =~= done);
    assert forall|i: int| 0 <= i < done.len() implies all[i] == done[i] by {}
    if end - start > max_label as usize {
        *too_long = true;
        assert(all[done.len() as int].len() > max_label);
    } else {
        if !*too_long {
            if end > start {
                out.push((end - start) as u8);
                append_bytes(out, slice_subrange(b, start, end));
                assert(out@ =~= labels_wire(done) + label_wire(part));
            } else {
                assert(labels_wire(done) + label_wire(part) =~= labels_wire(done));
            }
        }
        proof {
            if has_long_label(all, max_label as nat) {
                let i = choose|i: int| 0 <= i < all.len() && #[trigger] all[i].len() > max_label;
                assert(i < done.len());
                assert(done[i].len() > max_label);
            }
        }
    }
}

/// Encodes a dotted name as length-prefixed labels ended by a zero byte; empty parts are
/// left out, and a label may be at most `MAX_LABEL_LEN` bytes long. Never emits a
/// compression pointer.
pub fn encode_domain(domain: &str) -> (r: Result<Vec<u8>, CodecError>)
    ensures
        match name_wire(domain@) {
            Some(w) => r is Ok && r->Ok_0@ == w,
            None => r == Err::<Vec<u8>, CodecError>(CodecError::LabelTooLong),
        },
{
    encode_domain_limited(domain, MAX_LABEL_LEN)
}

/// Encodes a dotted name as `encode_domain` does, with labels of at most `max_label` bytes;
/// a longer one is refused. A length byte can say no more than 63 without reading as a
/// compression pointer.
pub fn encode_domain_limited(domain: &str, max_label: u8) -> (r: Result<Vec<u8>, CodecError>)
    requires
        max_label <= 63,
    ensures
        match name_wire_with(domain@, max_label as nat) {
            Some(w) => r is Ok && r->Ok_0@ == w,
            None => r == Err::<Vec<u8>, CodecError>(CodecError::LabelTooLong),
        },
{
    let b = domain.as_bytes();
    let n = b.len();
    let mut result: Vec<u8> = Vec::new();
    let mut too_long = false;
    let ghost mut done: Seq<Seq<u8>> = seq![];
    let mut start: usize = 0;
    let mut i: usize = 0;
    assert(b@.subrange(0, 0) =~= Seq::<u8>::empty());
    assert(seq![Seq::<u8>::empty()] =~= done.push(b@.subrange(0, 0)));
    while i < n
        invariant
            0 <= start <= i <= n,
            n == b@.len(),
            split_dots(b@.subrange(0, i as int)) == done.push(b@.subrange(start as int, i as int)),
            too_long == has_long_label(done, max_label as nat),
            !too_long ==> result@ == labels_wire(done),
        decreases n - i,
    {
        let ghost prev = b@.subrange(0, i as int);
        assert(b@.subrange(0, i + 1).drop_last() =~= prev);
        if b[i] == 0x2E {
            finish_part(&mut result, &mut too_long, b, start, i, max_label, Ghost(done));
            proof {
                done = done.push(b@.subrange(start as int, i as int));
            }
            start = i + 1;
            assert(b@.subrange(start as int, i + 1) =~= Seq::<u8>::empty());
        } else {
            assert(b@.subrange(start as int, i + 1) =~= b@.subrange(start as int, i as int).push(b[i as int]));
            assert(done.push(b@.subrange(start as int, i as int)).update(done.len() as int, b@.subrange(start as int, i + 1)) =~= done.push(b@.subrange(start as int, i + 1)));
        }
        i = i + 1;
    }
    finish_part(&mut result, &mut too_long, b, start, n, max_label, Ghost(done));
    assert(b@.subrange(0, n as int) =~= b@);
    reveal(name_wire_with);
    if too_long {
        return Err(CodecError::LabelTooLong);
    }
    result.push(0u8);
    Ok(result)
}

} // verus!
