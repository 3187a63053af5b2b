use vstd::prelude::*;
use vstd::utf8::*;

use crate::error::CodecError;
use crate::name::{
    has_long_label, is_pointer, join_dot, label_wire, labels_wire, name_wire, name_wire_with, parse_labels, parse_name,
    pointer_offset, split_dots, with_prefix,
};

verus! {

broadcast use {is_char_boundary_iff_not_is_continuation_byte, encode_utf8_valid_utf8, encode_utf8_decode_utf8};

/// Whether `b` holds no dot byte.
pub open spec fn dot_free(b: Seq<u8>) -> bool {
    forall|i: int| 0 <= i < b.len() ==> b[i] != 0x2E
}

/// Whether each label of a dotted name is nonempty and at most 63 bytes long (the empty
/// name has no label).
pub open spec fn labels_fit(name: Seq<char>) -> bool {
    let parts = split_dots(encode_utf8(name));
    name.len() == 0 || forall|i: int|
        0 <= i < parts.len() ==> 0 < #[trigger] parts[i].len() <= 63
}

proof fn lemma_split_len(b: Seq<u8>)
    ensures
        split_dots(b).len() >= 1,
    decreases b.len(),
{
    if b.len() > 0 {
        lemma_split_len(b.drop_last());
    }
}

proof fn lemma_split_dot_free(b: Seq<u8>)
    requires
        dot_free(b),
    ensures
        split_dots(b) == seq![b],
    decreases b.len(),
{
    if b.len() > 0 {
        lemma_split_dot_free(b.drop_last());
        assert(b.drop_last().push(b.last()) =~= b);
        assert(seq![b.drop_last()].update(0, b.drop_last().push(b.last())) =~= seq![b]);
    } else {
        assert(b =~= Seq::<u8>::empty());
    }
}

proof fn lemma_split_last_dot(x: Seq<u8>, y: Seq<u8>)
    requires
        dot_free(y),
    ensures
        split_dots(x + seq![0x2Eu8] + y) == split_dots(x).push(y),
    decreases y.len(),
{
    let b = x + seq![0x2Eu8] + y;
    if y.len() == 0 {
        assert(b.drop_last() =~= x);
        assert(y =~= Seq::<u8>::empty());
    } else {
        assert(b.drop_last() =~= x + seq![0x2Eu8] + y.drop_last());
        lemma_split_last_dot(x, y.drop_last());
        lemma_split_len(x);
        assert(y.drop_last().push(y.last()) =~= y);
        assert(split_dots(x).push(y.drop_last()).update(
            split_dots(x).len() as int,
            y.drop_last().push(y.last()),
        ) =~= split_dots(x).push(y));
        assert(y.drop_last().push(y.last()) =~= y);
    }
}

proof fn lemma_dot_utf8()
    ensures
        encode_utf8(seq!['.']) == seq![0x2Eu8],
        valid_utf8(seq![0x2Eu8]),
        decode_utf8(seq![0x2Eu8]) == seq!['.'],
{
    assert(seq!['.'].drop_first() =~= Seq::<char>::empty());
    assert(('.' as u32) == 0x2E);
    assert((0x2Eu32 & 0x7F) == 0x2E) by (bit_vector);
    assert(encode_scalar(0x2Eu32) =~= seq![0x2Eu8]);
    assert(encode_utf8(Seq::<char>::empty()) =~= Seq::<u8>::empty());
    assert(encode_utf8(seq!['.']) =~= encode_scalar(0x2Eu32) + encode_utf8(Seq::<char>::empty()));
    assert(encode_utf8(seq!['.']) =~= seq![0x2Eu8]);
}

/// The index of the last dot byte of `b`, or -1.
spec fn last_dot(b: Seq<u8>) -> int
    decreases b.len(),
{
    if b.len() == 0 {
        -1
    } else if b.last() == 0x2E {
        b.len() - 1
    } else {
        last_dot(b.drop_last())
    }
}

proof fn lemma_last_dot(b: Seq<u8>)
    ensures
        -1 <= last_dot(b) < b.len(),
        last_dot(b) == -1 ==> dot_free(b),
        last_dot(b) >= 0 ==> b[last_dot(b)] == 0x2E && dot_free(
            b.subrange(last_dot(b) + 1, b.len() as int),
        ),
    decreases b.len(),
{
    if b.len() > 0 && b.last() != 0x2E {
        let c = b.drop_last();
        lemma_last_dot(c);
        let k = last_dot(c);
        if k >= 0 {
            assert forall|i: int| 0 <= i < b.len() - k - 1 implies #[trigger] b.subrange(
                k + 1,
                b.len() as int,
            )[i] != 0x2E by {
                if i < c.len() - k - 1 {
                    assert(c.subrange(k + 1, c.len() as int)[i] == b[k + 1 + i]);
                }
            }
        } else {
            assert forall|i: int| 0 <= i < b.len() implies #[trigger] b[i] != 0x2E by {
                if i < c.len() {
                    assert(c[i] == b[i]);
                }
            }
        }
    }
}

/// Splitting valid UTF-8 at its dots and decoding each part gives the decoded text, and
/// every part is valid UTF-8 itself.
proof fn lemma_split_decode(b: Seq<u8>)
    requires
        valid_utf8(b),
    ensures
        forall|i: int| 0 <= i < split_dots(b).len() ==> valid_utf8(#[trigger] split_dots(b)[i]),
        join_dot(split_dots(b).map_values(|p: Seq<u8>| decode_utf8(p))) == decode_utf8(b),
    decreases b.len(),
{
    lemma_last_dot(b);
    let k = last_dot(b);
    if k < 0 {
        lemma_split_dot_free(b);
        assert(split_dots(b).map_values(|p: Seq<u8>| decode_utf8(p)) =~= seq![decode_utf8(b)]);
    } else {
        let x = b.subrange(0, k);
        let rest = b.subrange(k, b.len() as int);
        let y = b.subrange(k + 1, b.len() as int);
        assert(b =~= x + seq![0x2Eu8] + y);
        lemma_split_last_dot(x, y);
        assert(!is_continuation_byte(b[k]));
        assert(is_char_boundary(b, k));
        valid_utf8_split(b, k);
        decode_utf8_split(b, k);
        lemma_dot_utf8();
        assert(rest =~= seq![0x2Eu8] + y);
        lemma_dot_rest(y);
        lemma_split_decode(x);
        let parts = split_dots(x);
        lemma_split_len(x);
        let dec = |p: Seq<u8>| decode_utf8(p);
        assert(split_dots(b).map_values(dec) =~= parts.map_values(dec).push(decode_utf8(y)));
        assert(split_dots(b).map_values(dec).drop_last() =~= parts.map_values(dec));
        assert forall|i: int| 0 <= i < split_dots(b).len() implies valid_utf8(
            #[trigger] split_dots(b)[i],
        ) by {
            if i < parts.len() {
                assert(split_dots(b)[i] == parts[i]);
            }
        }
        assert(decode_utf8(b) =~= decode_utf8(x) + seq!['.'] + decode_utf8(y));
    }
}

/// A dot followed by valid UTF-8 decodes to a dot followed by its text.
proof fn lemma_dot_rest(y: Seq<u8>)
    requires
        valid_utf8(seq![0x2Eu8] + y),
    ensures
        valid_utf8(y),
        decode_utf8(seq![0x2Eu8] + y) == seq!['.'] + decode_utf8(y),
{
    let rest = seq![0x2Eu8] + y;
    assert(rest[0] == 0x2Eu8);
    assert(is_leading_byte_width_1(rest[0]));
    assert(length_of_first_scalar(rest) == 1);
    assert(pop_first_scalar(rest) =~= y);
    assert(decode_first_scalar(rest) == 0x2E) by {
        assert((0x2Eu8 & 0x7F) == 0x2E) by (bit_vector);
    }
    assert((0x2Eu32 as char) == '.');
}

proof fn lemma_labels_wire_front(parts: Seq<Seq<u8>>)
    requires
        parts.len() >= 1,
    ensures
        labels_wire(parts) == label_wire(parts[0]) + labels_wire(parts.drop_first()),
    decreases parts.len(),
{
    if parts.len() == 1 {
        assert(parts.drop_last() =~= Seq::<Seq<u8>>::empty());
        assert(parts.drop_first() =~= Seq::<Seq<u8>>::empty());
        assert(label_wire(parts[0]) + Seq::<u8>::empty() =~= label_wire(parts[0]));
    } else {
        lemma_labels_wire_front(parts.drop_last());
        assert(parts.drop_last().drop_first() =~= parts.drop_first().drop_last());
        assert(parts.drop_first().last() == parts.last());
        assert(labels_wire(parts.drop_first()) == labels_wire(parts.drop_first().drop_last())
            + label_wire(parts.drop_first().last()));
        assert(label_wire(parts[0]) + labels_wire(parts.drop_first()) =~= label_wire(parts[0])
            + labels_wire(parts.drop_last().drop_first()) + label_wire(parts.last()));
    }
}

/// Labels that fit, laid out in `buf` at `pos` and ended by a zero byte, read back as
/// their texts.
proof fn lemma_parse_wire(parts: Seq<Seq<u8>>, buf: Seq<u8>, pos: int, depth: nat, limit: nat)
    requires
        forall|i: int|
            0 <= i < parts.len() ==> 0 < #[trigger] parts[i].len() <= 63 && valid_utf8(parts[i]),
        0 <= pos,
        pos + labels_wire(parts).len() + 1 <= buf.len(),
        forall|i: int|
            0 <= i < labels_wire(parts).len() + 1 ==> buf[pos + i] == #[trigger] (labels_wire(
                parts,
            ) + seq![0u8])[i],
    ensures
        parse_labels(buf, pos, depth, limit) == Ok::<(Seq<Seq<char>>, int), CodecError>(
            (
                parts.map_values(|p: Seq<u8>| decode_utf8(p)),
                pos + labels_wire(parts).len() + 1,
            ),
        ),
    decreases parts.len(),
{
    let w = labels_wire(parts) + seq![0u8];
    if parts.len() == 0 {
        assert(buf[pos] == w[0]);
        assert(parts.map_values(|p: Seq<u8>| decode_utf8(p)) =~= Seq::<Seq<char>>::empty());
    } else {
        lemma_labels_wire_front(parts);
        let head = parts[0];
        let rest = parts.drop_first();
        let l = head.len() as u8;
        assert(w =~= seq![l] + head + (labels_wire(rest) + seq![0u8]));
        assert(buf[pos] == w[0]);
        assert(l & 0xC0 != 0xC0) by (bit_vector)
            requires
                0 < l <= 63,
        ;
        let end = pos + 1 + l;
        assert(buf.subrange(pos + 1, end) =~= head) by {
            assert forall|i: int| 0 <= i < l implies buf.subrange(pos + 1, end)[i] == head[i] by {
                assert(buf[pos + 1 + i] == w[1 + i]);
            }
        }
        assert forall|i: int| 0 <= i < labels_wire(rest).len() + 1 implies buf[end + i]
            == #[trigger] (labels_wire(rest) + seq![0u8])[i] by {
            assert(buf[pos + (1 + l + i)] == w[1 + l + i]);
        }
        lemma_parse_wire(rest, buf, end, depth, limit);
        assert(seq![decode_utf8(head)] + rest.map_values(|p: Seq<u8>| decode_utf8(p))
            =~= parts.map_values(|p: Seq<u8>| decode_utf8(p)));
    }
}

/// Decoding the encoding of a dotted name whose labels are nonempty and at most 63 bytes
/// long gives back the same name, with the position right after the encoding; at any
/// depth, since the encoding holds no compression pointer.
pub proof fn lemma_name_round_trip(
    name: Seq<char>,
    buf: Seq<u8>,
    pos: int,
    depth: nat,
    limit: nat,
)
    requires
        labels_fit(name),
    ensures
        name_wire(name) is Some,
        ({
            let w = name_wire(name)->Some_0;
            0 <= pos && pos + w.len() <= buf.len() && buf.subrange(pos, pos + w.len()) == w
                ==> parse_name(buf, pos, depth, limit) == Ok::<(Seq<char>, int), CodecError>(
                (name, pos + w.len()),
            )
        }),
{
    reveal(name_wire_with);
    let b = encode_utf8(name);
    let parts = split_dots(b);
    if name.len() == 0 {
        assert(b =~= Seq::<u8>::empty());
        assert(parts =~= seq![Seq::<u8>::empty()]);
        assert(parts.drop_last() =~= Seq::<Seq<u8>>::empty());
        assert(!(parts[0].len() > 63));
        assert(!has_long_label(parts, 63));
        let w = name_wire(name)->Some_0;
        assert(label_wire(parts.last()) =~= Seq::<u8>::empty());
        assert(labels_wire(parts.drop_last()) == Seq::<u8>::empty());
        assert(labels_wire(parts) == labels_wire(parts.drop_last()) + label_wire(parts.last()));
        assert(labels_wire(parts) =~= Seq::<u8>::empty());
        assert(w =~= seq![0u8]);
        if 0 <= pos && pos + w.len() <= buf.len() && buf.subrange(pos, pos + w.len()) == w {
            assert(buf[pos] == buf.subrange(pos, pos + 1)[0]);
            assert(join_dot(Seq::<Seq<char>>::empty()) =~= name);
        }
    } else {
        assert(!has_long_label(parts, 63));
        lemma_split_decode(b);
        let w = name_wire(name)->Some_0;
        if 0 <= pos && pos + w.len() <= buf.len() && buf.subrange(pos, pos + w.len()) == w {
            assert forall|i: int| 0 <= i < labels_wire(parts).len() + 1 implies buf[pos + i]
                == #[trigger] (labels_wire(parts) + seq![0u8])[i] by {
                assert(buf.subrange(pos, pos + w.len())[i] == buf[pos + i]);
            }
            lemma_parse_wire(parts, buf, pos, depth, limit);
        }
    }
}

/// A compression pointer to an uncompressed earlier occurrence of a name decodes to the
/// same text as that occurrence, and leaves the position right after its two bytes.
pub proof fn lemma_pointer_same_name(
    name: Seq<char>,
    buf: Seq<u8>,
    p: int,
    q: int,
    depth: nat,
    limit: nat,
)
    requires
        labels_fit(name),
        0 <= p,
        p + name_wire(name)->Some_0.len() <= q,
        q + 1 < buf.len(),
        buf.subrange(p, p + name_wire(name)->Some_0.len()) == name_wire(name)->Some_0,
        is_pointer(buf[q]),
        pointer_offset(buf[q], buf[q + 1]) == p,
        depth <= limit,
    ensures
        parse_name(buf, p, depth, limit) == Ok::<(Seq<char>, int), CodecError>(
            (name, p + name_wire(name)->Some_0.len()),
        ),
        parse_name(buf, q, depth, limit) == Ok::<(Seq<char>, int), CodecError>((name, q + 2)),
{
    lemma_name_round_trip(name, buf, p, depth, limit);
    lemma_name_round_trip(name, buf, p, depth + 1, limit);
    let l = buf[q];
    assert(l != 0) by (bit_vector)
        requires
            l & 0xC0 == 0xC0,
    ;
    let inner = parse_labels(buf, p, depth + 1, limit)->Ok_0.0;
    assert(join_dot(inner) == name);
    assert(parse_labels(buf, q, depth, limit) == Ok::<(Seq<Seq<char>>, int), CodecError>(
        (seq![name], q + 2),
    ));
}

/// Whether each position in `cycle` holds a compression pointer to a position in `cycle`.
pub open spec fn pointer_cycle(buf: Seq<u8>, cycle: Set<int>) -> bool {
    forall|p: int|
        #[trigger] cycle.contains(p) ==> 0 <= p && p + 1 < buf.len() && is_pointer(buf[p])
            && cycle.contains(pointer_offset(buf[p], buf[p + 1]))
}

/// A name that starts in a cycle of compression pointers (a pointer to itself, say) is
/// refused with `TooManyPointers` at any depth.
pub proof fn lemma_pointer_cycle(buf: Seq<u8>, cycle: Set<int>, pos: int, depth: nat, limit: nat)
    requires
        pointer_cycle(buf, cycle),
        cycle.contains(pos),
    ensures
        parse_name(buf, pos, depth, limit) == Err::<(Seq<char>, int), CodecError>(
            CodecError::TooManyPointers,
        ),
        parse_labels(buf, pos, depth, limit) == Err::<(Seq<Seq<char>>, int), CodecError>(
            CodecError::TooManyPointers,
        ),
    decreases limit + 1 - depth,
{
    let l = buf[pos];
    assert(l != 0) by (bit_vector)
        requires
            l & 0xC0 == 0xC0,
    ;
    if depth <= limit {
        let off = pointer_offset(buf[pos], buf[pos + 1]);
        lemma_pointer_cycle(buf, cycle, off, depth + 1, limit);
    }
}

/// Whether `chain` lists positions of `buf` that each hold a compression pointer, each
/// pointer but the last leading to the next position of the list.
pub open spec fn pointer_chain(buf: Seq<u8>, chain: Seq<int>) -> bool {
    &&& forall|i: int|
        0 <= i < chain.len() ==> 0 <= #[trigger] chain[i] && chain[i] + 1 < buf.len()
            && is_pointer(buf[chain[i]])
    &&& forall|i: int|
        0 <= i < chain.len() - 1 ==> pointer_offset(buf[#[trigger] chain[i]], buf[chain[i] + 1])
            == chain[i + 1]
}

/// A name that starts a chain of compression pointers longer than the pointers still
/// allowed is refused with `TooManyPointers`.
pub proof fn lemma_pointer_chain(buf: Seq<u8>, chain: Seq<int>, depth: nat, limit: nat)
    requires
        pointer_chain(buf, chain),
        chain.len() > 0,
        chain.len() > limit + 1 - depth,
    ensures
        parse_name(buf, chain[0], depth, limit) == Err::<(Seq<char>, int), CodecError>(
            CodecError::TooManyPointers,
        ),
        parse_labels(buf, chain[0], depth, limit) == Err::<(Seq<Seq<char>>, int), CodecError>(
            CodecError::TooManyPointers,
        ),
    decreases chain.len(),
{
    let pos = chain[0];
    assert(0 <= pos && pos + 1 < buf.len() && is_pointer(buf[pos]));
    let l = buf[pos];
    assert(l != 0) by (bit_vector)
        requires
            l & 0xC0 == 0xC0,
    ;
    if depth <= limit {
        let rest = chain.drop_first();
        assert(rest[0] == chain[1]);
        assert(pointer_offset(buf[chain[0]], buf[chain[0] + 1]) == chain[1]);
        assert(pointer_chain(buf, rest)) by {
            assert forall|i: int| 0 <= i < rest.len() implies 0 <= #[trigger] rest[i] && rest[i]
                + 1 < buf.len() && is_pointer(buf[rest[i]]) by {
                assert(rest[i] == chain[i + 1]);
            }
            assert forall|i: int| 0 <= i < rest.len() - 1 implies pointer_offset(
                buf[#[trigger] rest[i]],
                buf[rest[i] + 1],
            ) == rest[i + 1] by {
                assert(rest[i] == chain[i + 1]);
                assert(rest[i + 1] == chain[i + 2]);
            }
        }
        lemma_pointer_chain(buf, rest, depth + 1, limit);
    }
}

/// Whether reading the name at `pos` of `buf` meets no compression pointer that lies
/// wholly before `k` and leads to an offset at or past `k`.
pub open spec fn name_jumps_below(buf: Seq<u8>, pos: int, depth: nat, limit: nat, k: int) -> bool
    decreases limit + 1 - depth, buf.len() - pos,
{
    if pos < 0 || pos >= buf.len() {
        true
    } else {
        let l = buf[pos];
        if l == 0 {
            true
        } else if is_pointer(l) {
            if depth > limit || pos + 1 >= buf.len() {
                true
            } else {
                let off = pointer_offset(l, buf[pos + 1]);
                if off >= buf.len() || pos + 1 >= k {
                    true
                } else {
                    off < k && name_jumps_below(buf, off, depth + 1, limit, k)
                }
            }
        } else {
            let end = pos + 1 + l;
            if end > buf.len() || end > k || !valid_utf8(buf.subrange(pos + 1, end)) {
                true
            } else {
                name_jumps_below(buf, end, depth, limit, k)
            }
        }
    }
}

/// A name that reads, ends after where it starts.
pub proof fn lemma_name_end_after(buf: Seq<u8>, pos: int, depth: nat, limit: nat)
    requires
        parse_labels(buf, pos, depth, limit) is Ok,
    ensures
        parse_labels(buf, pos, depth, limit)->Ok_0.1 > pos,
    decreases limit + 1 - depth, buf.len() - pos,
{
    let l = buf[pos];
    if l != 0 && !is_pointer(l) {
        lemma_name_end_after(buf, pos + 1 + l, depth, limit);
    }
}

/// Reading a name from the first `k` bytes of `buf` gives what reading it from all of
/// `buf` gives, or `Truncated`; and `Truncated` where the name runs past `k`; as long as
/// no pointer followed leads past `k`.
pub proof fn lemma_name_prefix(buf: Seq<u8>, pos: int, depth: nat, limit: nat, k: int)
    requires
        parse_labels(buf, pos, depth, limit) is Ok,
        name_jumps_below(buf, pos, depth, limit, k),
        0 <= k <= buf.len(),
    ensures
        parse_labels(buf.subrange(0, k), pos, depth, limit) == parse_labels(buf, pos, depth, limit)
            || parse_labels(buf.subrange(0, k), pos, depth, limit) == Err::<
            (Seq<Seq<char>>, int),
            CodecError,
        >(CodecError::Truncated),
        parse_labels(buf, pos, depth, limit)->Ok_0.1 > k ==> parse_labels(
            buf.subrange(0, k),
            pos,
            depth,
            limit,
        ) == Err::<(Seq<Seq<char>>, int), CodecError>(CodecError::Truncated),
        parse_name(buf.subrange(0, k), pos, depth, limit) == parse_name(buf, pos, depth, limit)
            || parse_name(buf.subrange(0, k), pos, depth, limit) == Err::<
            (Seq<char>, int),
            CodecError,
        >(CodecError::Truncated),
        parse_name(buf, pos, depth, limit)->Ok_0.1 > k ==> parse_name(
            buf.subrange(0, k),
            pos,
            depth,
            limit,
        ) == Err::<(Seq<char>, int), CodecError>(CodecError::Truncated),
    decreases limit + 1 - depth, buf.len() - pos,
{
    let pre = buf.subrange(0, k);
    if pos < k {
        let l = buf[pos];
        assert(pre[pos] == l);
        if l != 0 {
            if is_pointer(l) {
                if pos + 1 < k {
                    assert(pre[pos + 1] == buf[pos + 1]);
                    let off = pointer_offset(l, buf[pos + 1]);
                    lemma_name_prefix(buf, off, depth + 1, limit, k);
                }
            } else {
                let end = pos + 1 + l;
                lemma_name_end_after(buf, end, depth, limit);
                if end <= k {
                    assert(pre.subrange(pos + 1, end) =~= buf.subrange(pos + 1, end));
                    lemma_name_prefix(buf, end, depth, limit, k);
                }
            }
        }
    }
}

/// Whether every two bytes of `buf` that make a compression pointer lead to an offset
/// before the pointer itself.
pub open spec fn pointers_backward(buf: Seq<u8>) -> bool {
    forall|i: int|
        0 <= i && i + 1 < buf.len() && is_pointer(#[trigger] buf[i]) ==> pointer_offset(
            buf[i],
            buf[i + 1],
        ) < i
}

/// Where every pointer leads backward, no name meets a pointer before `k` that leads past
/// it.
pub proof fn lemma_backward_jumps_below(buf: Seq<u8>, pos: int, depth: nat, limit: nat, k: int)
    requires
        pointers_backward(buf),
    ensures
        name_jumps_below(buf, pos, depth, limit, k),
    decreases limit + 1 - depth, buf.len() - pos,
{
    if 0 <= pos < buf.len() {
        let l = buf[pos];
        if l != 0 {
            if is_pointer(l) {
                if depth <= limit && pos + 1 < buf.len() {
                    let off = pointer_offset(l, buf[pos + 1]);
                    if off < buf.len() {
                        lemma_backward_jumps_below(buf, off, depth + 1, limit, k);
                    }
                }
            } else {
                let end = pos + 1 + l;
                if end <= buf.len() {
                    lemma_backward_jumps_below(buf, end, depth, limit, k);
                }
            }
        }
    }
}

} // verus!
