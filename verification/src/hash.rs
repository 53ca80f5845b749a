//! The two capabilities an inclusion proof is parameterized over: the hash
//! value type it stores, and the combination algorithm that derives a parent
//! hash from two child hashes.

use vstd::prelude::*;

verus! {

/// A hash (or leaf) value that a proof can store, compare and serialize.
///
/// Beyond equality and copying, a `HashValue` defines its own byte encoding,
/// which the proof's wire format embeds element by element.  Decoding must
/// recognize exactly the encodings that encoding produces, and an encoding
/// read from the front of a byte stream must be unambiguous; together these
/// make the proof's encode/decode pair a round trip.
pub trait HashValue: Sized {
    /// The byte encoding of this value on the wire.
    spec fn encoding(&self) -> Seq<u8>;

    /// An exact copy of this value.
    fn dup(&self) -> (r: Self)
        ensures
            r == *self,
    ;

    /// Value equality.
    fn eq_value(&self, other: &Self) -> (r: bool)
        ensures
            r == (*self == *other),
    ;

    /// Appends this value's encoding to `out`.
    fn encode_to(&self, out: &mut Vec<u8>)
        ensures
            final(out)@ == old(out)@ + self.encoding(),
    ;

    /// Decodes one value whose encoding starts at `pos`, returning it with
    /// the position one past its encoding, or `None` when no value's
    /// encoding starts there.
    fn decode_from(bytes: &[u8], pos: usize) -> (r: Option<(Self, usize)>)
        requires
            pos <= bytes@.len(),
        ensures
            r matches Some(p) ==> pos <= p.1 <= bytes@.len()
                && bytes@.subrange(pos as int, p.1 as int) == p.0.encoding(),
            forall|v: Self|
                (#[trigger] v.encoding()).is_prefix_of(bytes@.skip(pos as int))
                    ==> (r matches Some(p) && p.0 == v && p.1 == pos + v.encoding().len()),
    ;

    /// No value's encoding is a proper prefix of another's: whenever two
    /// encodings start the same byte stream, they belong to the same value.
    proof fn encoding_self_delimiting(v1: Self, v2: Self, rest1: Seq<u8>, rest2: Seq<u8>)
        requires
            v1.encoding() + rest1 == v2.encoding() + rest2,
        ensures
            v1 == v2,
    ;
}

/// An order-sensitive hash combination capability: given two hashes in
/// left/right order, it produces their combined parent hash.
///
/// The capability may keep internal state (a streaming hasher's buffer or
/// counter), so it must be reset to a clean state before every combination;
/// `node` demands a state that a `reset` has just cleared, and leaves the
/// state unknown again.  What `node` returns is a function of the two
/// operands alone, in that order.
pub trait HashCombiner<T>: Sized {
    /// The parent hash that combining `left` and `right` yields.
    spec fn combined(left: T, right: T) -> T;

    /// Whether the internal state is clean enough to combine.
    spec fn ready(&self) -> bool;

    /// A fresh instance; its state is not assumed clean until `reset`.
    fn fresh() -> (a: Self);

    /// Clears the internal state in place; callable any number of times.
    fn reset(&mut self)
        ensures
            final(self).ready(),
    ;

    /// Combines two hashes into their parent, `left` first.
    fn node(&mut self, left: T, right: T) -> (r: T)
        requires
            old(self).ready(),
        ensures
            r == Self::combined(left, right),
    ;
}

} // verus!
