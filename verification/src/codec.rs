//! The proof's wire format.
//!
//! A proof's contents are encoded as two count-prefixed sequences: the lemma
//! count as eight little-endian bytes, then each lemma element's own
//! encoding, then the path count as eight little-endian bytes, then one byte
//! per direction bit (`1` for true, `0` for false).  The encoding is a pure
//! function of the proof's contents, so it is deterministic.

use vstd::bytes::{lemma_auto_spec_u64_to_from_le_bytes, spec_u64_to_le_bytes};
use vstd::prelude::*;

use crate::hash::HashValue;

verus! {

/// The concatenated encodings of a sequence of hash values.
pub open spec fn elems_bytes<T: HashValue>(s: Seq<T>) -> Seq<u8>
    decreases s.len(),
{
    if s.len() == 0 {
        Seq::empty()
    } else {
        s.first().encoding() + elems_bytes(s.drop_first())
    }
}

/// The one-byte encoding of a direction bit.
pub open spec fn bool_byte(b: bool) -> u8 {
    if b {
        1
    } else {
        0
    }
}

/// The byte encoding of a sequence of direction bits, one byte each.
pub open spec fn bools_bytes(s: Seq<bool>) -> Seq<u8> {
    Seq::new(s.len(), |i: int| bool_byte(s[i]))
}

/// The full wire encoding of a proof's contents.
pub open spec fn proof_bytes<T: HashValue>(lemma: Seq<T>, path: Seq<bool>) -> Seq<u8> {
    spec_u64_to_le_bytes(lemma.len() as u64) + elems_bytes(lemma)
        + spec_u64_to_le_bytes(path.len() as u64) + bools_bytes(path)
}

/// Concatenating value sequences concatenates their encodings.
pub proof fn lemma_elems_bytes_concat<T: HashValue>(a: Seq<T>, b: Seq<T>)
    ensures
        elems_bytes(a + b) == elems_bytes(a) + elems_bytes(b),
    decreases a.len(),
{
    if a.len() == 0 {
        assert(a + b =~= b);
        assert(elems_bytes(a) + elems_bytes(b) =~= elems_bytes(b));
    } else {
        lemma_elems_bytes_concat(a.drop_first(), b);
        assert((a + b).drop_first() =~= a.drop_first() + b);
        assert(elems_bytes(a + b) =~= elems_bytes(a) + elems_bytes(b));
    }
}

/// The encoding of a single value.
pub proof fn lemma_elems_bytes_singleton<T: HashValue>(x: T)
    ensures
        elems_bytes(seq![x]) == x.encoding(),
{
    assert(seq![x].len() == 1);
    assert(elems_bytes(seq![x]) == seq![x].first().encoding() + elems_bytes(seq![x].drop_first()));
    assert(seq![x].drop_first() =~= Seq::<T>::empty());
    assert(elems_bytes(Seq::<T>::empty()) == Seq::<u8>::empty());
    assert(x.encoding() + Seq::<u8>::empty() =~= x.encoding());
}

/// Appending one value appends its encoding.
pub proof fn lemma_elems_bytes_snoc<T: HashValue>(s: Seq<T>, x: T)
    ensures
        elems_bytes(s.push(x)) == elems_bytes(s) + x.encoding(),
{
    lemma_elems_bytes_concat(s, seq![x]);
    lemma_elems_bytes_singleton(x);
    assert(s.push(x) =~= s + seq![x]);
}

/// Equal byte streams with the same prefix have the same remainder.
pub proof fn lemma_concat_cancel_left(x: Seq<u8>, y: Seq<u8>, z: Seq<u8>)
    requires
        x + y == x + z,
    ensures
        y == z,
{
    assert((x + y).len() == x.len() + y.len());
    assert((x + z).len() == x.len() + z.len());
    assert(y.len() == z.len());
    assert forall|i: int| 0 <= i < y.len() implies y[i] == z[i] by {
        assert((x + y)[x.len() + i] == y[i]);
        assert((x + z)[x.len() + i] == z[i]);
    }
    assert(y =~= z);
}

/// Two element lists encoded at the same spot in one byte stream agree as
/// far as the shorter one goes: element encodings are self-delimiting, so
/// the stream fixes each element in turn.
pub proof fn lemma_elems_bytes_align<T: HashValue>(a: Seq<T>, b: Seq<T>, ra: Seq<u8>, rb: Seq<u8>)
    requires
        elems_bytes(a) + ra == elems_bytes(b) + rb,
        a.len() <= b.len(),
    ensures
        a == b.take(a.len() as int),
        ra == elems_bytes(b.skip(a.len() as int)) + rb,
    decreases a.len(),
{
    if a.len() == 0 {
        assert(b.take(0) =~= a);
        assert(b.skip(0) =~= b);
        assert(elems_bytes(a) + ra =~= ra);
    } else {
        let arest = elems_bytes(a.drop_first()) + ra;
        let brest = elems_bytes(b.drop_first()) + rb;
        assert(elems_bytes(a) == a.first().encoding() + elems_bytes(a.drop_first()));
        assert(elems_bytes(b) == b.first().encoding() + elems_bytes(b.drop_first()));
        vstd::seq_lib::lemma_concat_associative(
            a.first().encoding(),
            elems_bytes(a.drop_first()),
            ra,
        );
        vstd::seq_lib::lemma_concat_associative(
            b.first().encoding(),
            elems_bytes(b.drop_first()),
            rb,
        );
        assert(a.first().encoding() + arest == b.first().encoding() + brest);
        T::encoding_self_delimiting(a.first(), b.first(), arest, brest);
        lemma_concat_cancel_left(a.first().encoding(), arest, brest);
        lemma_elems_bytes_align(a.drop_first(), b.drop_first(), ra, rb);
        assert(a =~= b.take(a.len() as int)) by {
            assert(a.drop_first() == b.drop_first().take(a.len() - 1));
            assert forall|i: int| 0 <= i < a.len() implies a[i] == b.take(a.len() as int)[i] by {
                if i > 0 {
                    assert(a[i] == a.drop_first()[i - 1]);
                    assert(b.drop_first().take(a.len() - 1)[i - 1] == b[i]);
                }
            }
        }
        assert(b.skip(a.len() as int) =~= b.drop_first().skip(a.len() - 1));
    }
}

/// A left factor is a prefix of its concatenation.
pub proof fn lemma_left_is_prefix(a: Seq<u8>, b: Seq<u8>)
    ensures
        a.is_prefix_of(a + b),
{
    assert((a + b).subrange(0, a.len() as int) =~= a);
}

/// How a stream that starts with a proof encoding decomposes, stated in
/// right-nested form so that a parser can peel one layer at a time.
pub proof fn lemma_proof_bytes_unpack<T: HashValue>(lem: Seq<T>, pth: Seq<bool>, s: Seq<u8>)
    requires
        proof_bytes(lem, pth).is_prefix_of(s),
    ensures
        s == spec_u64_to_le_bytes(lem.len() as u64) + (elems_bytes(lem) + (spec_u64_to_le_bytes(
            pth.len() as u64,
        ) + (bools_bytes(pth) + s.skip(proof_bytes(lem, pth).len() as int)))),
{
    let cl = spec_u64_to_le_bytes(lem.len() as u64);
    let eb = elems_bytes(lem);
    let cp = spec_u64_to_le_bytes(pth.len() as u64);
    let bb = bools_bytes(pth);
    let pb = proof_bytes(lem, pth);
    let rest = s.skip(pb.len() as int);
    assert(s =~= pb + rest);
    vstd::seq_lib::lemma_concat_associative((cl + eb) + cp, bb, rest);
    vstd::seq_lib::lemma_concat_associative(cl + eb, cp, bb + rest);
    vstd::seq_lib::lemma_concat_associative(cl, eb, cp + (bb + rest));
}

/// What the parser state in the middle of the element list forces, given
/// that the whole stream starts with some proof encoding: the count read
/// first is that encoding's lemma length, the elements parsed so far are
/// its first elements, and the unread part of the stream continues with
/// the rest of that encoding.
pub proof fn lemma_parser_alignment<T: HashValue>(
    s: Seq<u8>,
    lem: Seq<T>,
    pth: Seq<bool>,
    count: u64,
    parsed: Seq<T>,
    pos: int,
)
    requires
        lem.len() < 0x10000000000000000,
        proof_bytes(lem, pth).is_prefix_of(s),
        0 <= pos <= s.len(),
        s.take(pos) == spec_u64_to_le_bytes(count) + elems_bytes(parsed),
        parsed.len() <= count,
    ensures
        count == lem.len(),
        parsed == lem.take(parsed.len() as int),
        s.skip(pos) == elems_bytes(lem.skip(parsed.len() as int)) + (spec_u64_to_le_bytes(
            pth.len() as u64,
        ) + (bools_bytes(pth) + s.skip(proof_bytes(lem, pth).len() as int))),
{
    lemma_auto_spec_u64_to_from_le_bytes();
    lemma_proof_bytes_unpack(lem, pth, s);
    let cl = spec_u64_to_le_bytes(lem.len() as u64);
    let tail = spec_u64_to_le_bytes(pth.len() as u64) + (bools_bytes(pth) + s.skip(
        proof_bytes(lem, pth).len() as int,
    ));
    // The first eight bytes are both counts, so the counts agree.
    assert(s.take(8) =~= cl);
    assert(pos >= 8) by {
        assert(s.take(pos).len() == pos);
    }
    assert(s.take(pos).take(8) =~= spec_u64_to_le_bytes(count));
    assert(s.take(pos).take(8) =~= s.take(8));
    assert(vstd::bytes::spec_u64_from_le_bytes(spec_u64_to_le_bytes(count)) == count);
    assert(vstd::bytes::spec_u64_from_le_bytes(cl) == lem.len() as u64);
    assert(count == lem.len());
    // Cancel the count, then align the two element lists.
    assert(s =~= s.take(pos) + s.skip(pos));
    vstd::seq_lib::lemma_concat_associative(
        spec_u64_to_le_bytes(count),
        elems_bytes(parsed),
        s.skip(pos),
    );
    lemma_concat_cancel_left(cl, elems_bytes(parsed) + s.skip(pos), elems_bytes(lem) + tail);
    lemma_elems_bytes_align(parsed, lem, s.skip(pos), tail);
}

/// The same, one stage later: the parser has read the whole element list
/// and the path count, and stands in the middle of the direction bits.
pub proof fn lemma_parser_alignment_bits<T: HashValue>(
    s: Seq<u8>,
    lem: Seq<T>,
    pth: Seq<bool>,
    count: u64,
    count2: u64,
    parsed: Seq<T>,
    bits: Seq<bool>,
    pos: int,
)
    requires
        lem.len() < 0x10000000000000000,
        pth.len() < 0x10000000000000000,
        proof_bytes(lem, pth).is_prefix_of(s),
        0 <= pos <= s.len(),
        s.take(pos) == ((spec_u64_to_le_bytes(count) + elems_bytes(parsed)) + spec_u64_to_le_bytes(
            count2,
        )) + bools_bytes(bits),
        parsed.len() == count,
        bits.len() <= count2,
    ensures
        count == lem.len(),
        count2 == pth.len(),
        parsed == lem,
        bits == pth.take(bits.len() as int),
        s.skip(pos) == bools_bytes(pth.skip(bits.len() as int)) + s.skip(
            proof_bytes(lem, pth).len() as int,
        ),
{
    lemma_auto_spec_u64_to_from_le_bytes();
    lemma_proof_bytes_unpack(lem, pth, s);
    let cl = spec_u64_to_le_bytes(lem.len() as u64);
    let cp = spec_u64_to_le_bytes(pth.len() as u64);
    let rest = s.skip(proof_bytes(lem, pth).len() as int);
    let mid = elems_bytes(parsed).len() as int;
    // Re-nest the parsed prefix to the right.
    assert(s =~= s.take(pos) + s.skip(pos));
    vstd::seq_lib::lemma_concat_associative(
        (spec_u64_to_le_bytes(count) + elems_bytes(parsed)) + spec_u64_to_le_bytes(count2),
        bools_bytes(bits),
        s.skip(pos),
    );
    vstd::seq_lib::lemma_concat_associative(
        spec_u64_to_le_bytes(count) + elems_bytes(parsed),
        spec_u64_to_le_bytes(count2),
        bools_bytes(bits) + s.skip(pos),
    );
    vstd::seq_lib::lemma_concat_associative(
        spec_u64_to_le_bytes(count),
        elems_bytes(parsed),
        spec_u64_to_le_bytes(count2) + (bools_bytes(bits) + s.skip(pos)),
    );
    // The counts agree, as in the element stage.
    assert(s.take(8) =~= cl);
    assert(pos >= 8) by {
        assert(s.take(pos).len() == pos);
    }
    assert(s.take(pos).take(8) =~= spec_u64_to_le_bytes(count));
    assert(s.take(pos).take(8) =~= s.take(8));
    assert(count == lem.len());
    // Cancel the count and align the element lists, which here have equal
    // length, so the parsed list is the whole lemma.
    lemma_concat_cancel_left(
        cl,
        elems_bytes(parsed) + (spec_u64_to_le_bytes(count2) + (bools_bytes(bits) + s.skip(pos))),
        elems_bytes(lem) + (cp + (bools_bytes(pth) + rest)),
    );
    lemma_elems_bytes_align(
        parsed,
        lem,
        spec_u64_to_le_bytes(count2) + (bools_bytes(bits) + s.skip(pos)),
        cp + (bools_bytes(pth) + rest),
    );
    assert(parsed =~= lem);
    assert(lem.skip(parsed.len() as int) =~= Seq::<T>::empty());
    assert(elems_bytes(lem.skip(parsed.len() as int)) == Seq::<u8>::empty());
    assert(Seq::<u8>::empty() + (cp + (bools_bytes(pth) + rest)) =~= cp + (bools_bytes(pth)
        + rest));
    // The path counts agree.
    let lhs = spec_u64_to_le_bytes(count2) + (bools_bytes(bits) + s.skip(pos));
    assert(lhs.take(8) =~= spec_u64_to_le_bytes(count2));
    assert(lhs.take(8) =~= cp);
    assert(count2 == pth.len());
    // Cancel the path count; the remaining streams place both bit lists at
    // the same offset, and bits encode one byte each, so they agree.
    lemma_concat_cancel_left(cp, bools_bytes(bits) + s.skip(pos), bools_bytes(pth) + rest);
    assert forall|t: int| 0 <= t < bits.len() implies bits[t] == pth[t] by {
        assert((bools_bytes(bits) + s.skip(pos))[t] == bool_byte(bits[t]));
        assert((bools_bytes(pth) + rest)[t] == bool_byte(pth[t]));
    }
    assert(bits =~= pth.take(bits.len() as int));
    // Cancel the bits read so far.
    assert(bools_bytes(pth) =~= bools_bytes(bits) + bools_bytes(pth.skip(bits.len() as int)));
    vstd::seq_lib::lemma_concat_associative(
        bools_bytes(bits),
        bools_bytes(pth.skip(bits.len() as int)),
        rest,
    );
    lemma_concat_cancel_left(
        bools_bytes(bits),
        s.skip(pos),
        bools_bytes(pth.skip(bits.len() as int)) + rest,
    );
}

impl HashValue for u64 {
    /// Eight little-endian bytes.
    open spec fn encoding(&self) -> Seq<u8> {
        spec_u64_to_le_bytes(*self)
    }

    fn dup(&self) -> (r: u64) {
        *self
    }

    fn eq_value(&self, other: &u64) -> (r: bool) {
        *self == *other
    }

    fn encode_to(&self, out: &mut Vec<u8>) {
        let mut bs = vstd::bytes::u64_to_le_bytes(*self);
        out.append(&mut bs);
    }

    fn decode_from(bytes: &[u8], pos: usize) -> (r: Option<(u64, usize)>) {
        proof {
            lemma_auto_spec_u64_to_from_le_bytes();
        }
        if bytes.len() - pos < 8 {
            assert forall|v: u64|
                !(#[trigger] spec_u64_to_le_bytes(v)).is_prefix_of(
                    bytes@.skip(pos as int),
                ) by {
                assert(spec_u64_to_le_bytes(v).len() == 8);
            }
            None
        } else {
            let sub = vstd::slice::slice_subrange(bytes, pos, pos + 8);
            let x = vstd::bytes::u64_from_le_bytes(sub);
            proof {
                assert(bytes@.subrange(pos as int, pos + 8) =~= bytes@.skip(pos as int).take(8));
                assert(spec_u64_to_le_bytes(x) == sub@);
                assert forall|v: u64|
                    (#[trigger] spec_u64_to_le_bytes(v)).is_prefix_of(
                        bytes@.skip(pos as int),
                    ) implies v == x by {
                    assert(spec_u64_to_le_bytes(v) =~= bytes@.skip(pos as int).take(8));
                    assert(vstd::bytes::spec_u64_from_le_bytes(spec_u64_to_le_bytes(v)) == v);
                }
            }
            Some((x, pos + 8))
        }
    }

    proof fn encoding_self_delimiting(v1: u64, v2: u64, rest1: Seq<u8>, rest2: Seq<u8>) {
        lemma_auto_spec_u64_to_from_le_bytes();
        assert(spec_u64_to_le_bytes(v1) =~= (spec_u64_to_le_bytes(v1) + rest1).take(8));
        assert(spec_u64_to_le_bytes(v2) =~= (spec_u64_to_le_bytes(v2) + rest2).take(8));
        assert(vstd::bytes::spec_u64_from_le_bytes(spec_u64_to_le_bytes(v1)) == v1);
        assert(vstd::bytes::spec_u64_from_le_bytes(spec_u64_to_le_bytes(v2)) == v2);
    }
}

} // verus!
