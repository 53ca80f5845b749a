//! The inclusion proof itself: construction, accessors, validation, and the
//! laws that validation obeys.

use vstd::bytes::{lemma_auto_spec_u64_to_from_le_bytes, spec_u64_to_le_bytes, u64_from_le_bytes,
    u64_to_le_bytes};
use vstd::prelude::*;
use vstd::seq_lib::lemma_concat_associative;
use vstd::slice::{slice_index_get, slice_subrange};

use crate::codec::{bool_byte, bools_bytes, elems_bytes, lemma_elems_bytes_snoc,
    lemma_left_is_prefix, lemma_parser_alignment, lemma_parser_alignment_bits, proof_bytes};
use crate::hash::{HashCombiner, HashValue};

verus! {

/// A Merkle tree inclusion proof for one data element.
///
/// `lemma` holds, in order, the target leaf's hash, the sibling hashes met
/// while walking from the leaf to the root, and the claimed root hash.
/// `path` holds one direction bit per sibling: `true` means the running
/// hash is the left operand when combined with that sibling, `false` means
/// the sibling is the left operand.
///
/// A proof built by [`Proof::new`] always has at least three lemma entries
/// and exactly one direction bit per sibling.  Decoding does not re-check
/// those shapes, so a decoded proof may be shorter; [`Proof::validate`] is
/// total over any shape and answers `false` rather than failing.
#[derive(Debug, Clone, PartialEq, Eq)]
pub struct Proof<T> {
    lemma: Vec<T>,
    path: Vec<bool>,
}

/// The running hash after folding the first `k` siblings into the leaf
/// hash `lemma[0]`: step `k` combines the running hash with `lemma[k]`,
/// with the running hash as left operand exactly when `path[k - 1]` is set.
pub open spec fn derived_hash<T, A: HashCombiner<T>>(
    lemma: Seq<T>,
    path: Seq<bool>,
    k: int,
) -> T
    decreases k,
{
    if k <= 0 {
        lemma[0]
    } else if path[k - 1] {
        A::combined(derived_hash::<T, A>(lemma, path, k - 1), lemma[k])
    } else {
        A::combined(lemma[k], derived_hash::<T, A>(lemma, path, k - 1))
    }
}

/// What `validate` decides: the proof has at least a leaf and a root, a
/// direction bit for every sibling, and folding all siblings into the leaf
/// re-derives the claimed root.
pub open spec fn spec_valid<T, A: HashCombiner<T>>(lemma: Seq<T>, path: Seq<bool>) -> bool {
    &&& lemma.len() >= 2
    &&& path.len() >= lemma.len() - 2
    &&& derived_hash::<T, A>(lemma, path, lemma.len() - 2) == lemma[lemma.len() - 1]
}

impl<T: HashValue> Proof<T> {
    /// The lemma as a mathematical sequence.
    pub closed spec fn lemma_seq(&self) -> Seq<T> {
        self.lemma@
    }

    /// The path as a mathematical sequence.
    pub closed spec fn path_seq(&self) -> Seq<bool> {
        self.path@
    }

    /// Creates a new inclusion proof, taking ownership of both sequences.
    ///
    /// The shapes are the caller's contract: at least three lemma entries
    /// (leaf, one sibling, root) and exactly one direction bit per sibling.
    pub fn new(hash: Vec<T>, path: Vec<bool>) -> (p: Proof<T>)
        requires
            hash@.len() > 2,
            path@.len() == hash@.len() - 2,
        ensures
            p.lemma_seq() == hash@,
            p.path_seq() == path@,
    {
        Proof { lemma: hash, path }
    }

    /// The proof's target leaf hash.
    pub fn item(&self) -> (r: T)
        requires
            self.lemma_seq().len() > 0,
        ensures
            r == self.lemma_seq()[0],
    {
        self.lemma[0].dup()
    }

    /// The claimed tree root hash.
    pub fn root(&self) -> (r: T)
        requires
            self.lemma_seq().len() > 0,
        ensures
            r == self.lemma_seq().last(),
    {
        self.lemma[self.lemma.len() - 1].dup()
    }

    /// A copy of the lemma.
    pub fn lemma(&self) -> (r: Vec<T>)
        ensures
            r@ == self.lemma_seq(),
    {
        let mut out: Vec<T> = Vec::new();
        let mut i: usize = 0;
        while i < self.lemma.len()
            invariant
                i <= self.lemma@.len(),
                out@ == self.lemma@.take(i as int),
            decreases self.lemma@.len() - i,
        {
            out.push(self.lemma[i].dup());
            proof {
                assert(self.lemma@.take(i + 1) =~= self.lemma@.take(i as int).push(
                    self.lemma@[i as int],
                ));
            }
            i += 1;
        }
        proof {
            assert(self.lemma@.take(self.lemma@.len() as int) =~= self.lemma@);
        }
        out
    }

    /// A copy of the path.
    pub fn path(&self) -> (r: Vec<bool>)
        ensures
            r@ == self.path_seq(),
    {
        let mut out: Vec<bool> = Vec::new();
        let mut i: usize = 0;
        while i < self.path.len()
            invariant
                i <= self.path@.len(),
                out@ == self.path@.take(i as int),
            decreases self.path@.len() - i,
        {
            out.push(self.path[i]);
            proof {
                assert(self.path@.take(i + 1) =~= self.path@.take(i as int).push(
                    self.path@[i as int],
                ));
            }
            i += 1;
        }
        proof {
            assert(self.path@.take(self.path@.len() as int) =~= self.path@);
        }
        out
    }

    /// Validates the proof: re-derives the root from the leaf, resetting
    /// the combiner before every combination, and compares the result to
    /// the claimed root.
    ///
    /// Validation is total over any proof value, even one whose shape a
    /// decode did not re-check: a proof with fewer than two lemma entries,
    /// or with fewer direction bits than siblings, is answered with
    /// `false` rather than a failure.
    pub fn validate<A: HashCombiner<T>>(&self) -> (r: bool)
        ensures
            r == spec_valid::<T, A>(self.lemma_seq(), self.path_seq()),
    {
        let size = self.lemma.len();
        if size < 2 {
            return false;
        }
        if self.path.len() < size - 2 {
            return false;
        }
        let mut h = self.lemma[0].dup();
        let mut a = A::fresh();
        let mut i: usize = 1;
        while i < size - 1
            invariant
                1 <= i <= size - 1,
                size == self.lemma@.len(),
                2 <= size,
                self.path@.len() >= size - 2,
                h == derived_hash::<T, A>(self.lemma@, self.path@, i - 1),
            decreases size - i,
        {
            a.reset();
            let sibling = self.lemma[i].dup();
            h = if self.path[i - 1] {
                a.node(h, sibling)
            } else {
                a.node(sibling, h)
            };
            i += 1;
        }
        h.eq_value(&self.lemma[size - 1])
    }

    /// Encodes the proof into its wire format (see [`crate::codec`]): the
    /// lemma count, each lemma element's encoding, the path count, then one
    /// byte per direction bit.  The bytes are a pure function of the
    /// proof's contents, so encoding is deterministic.
    pub fn into_bytes(&self) -> (r: Vec<u8>)
        ensures
            r@ == proof_bytes(self.lemma_seq(), self.path_seq()),
    {
        let mut out: Vec<u8> = Vec::new();
        let mut head = u64_to_le_bytes(self.lemma.len() as u64);
        out.append(&mut head);
        proof {
            assert(Seq::<u8>::empty() + spec_u64_to_le_bytes(self.lemma@.len() as u64)
                =~= spec_u64_to_le_bytes(self.lemma@.len() as u64));
            assert(self.lemma@.take(0) =~= Seq::<T>::empty());
            assert(spec_u64_to_le_bytes(self.lemma@.len() as u64) + Seq::<u8>::empty()
                =~= spec_u64_to_le_bytes(self.lemma@.len() as u64));
        }
        let mut i: usize = 0;
        while i < self.lemma.len()
            invariant
                i <= self.lemma@.len(),
                out@ == spec_u64_to_le_bytes(self.lemma@.len() as u64) + elems_bytes(
                    self.lemma@.take(i as int),
                ),
            decreases self.lemma@.len() - i,
        {
            self.lemma[i].encode_to(&mut out);
            proof {
                lemma_elems_bytes_snoc(self.lemma@.take(i as int), self.lemma@[i as int]);
                assert(self.lemma@.take(i + 1) =~= self.lemma@.take(i as int).push(
                    self.lemma@[i as int],
                ));
                lemma_concat_associative(
                    spec_u64_to_le_bytes(self.lemma@.len() as u64),
                    elems_bytes(self.lemma@.take(i as int)),
                    self.lemma@[i as int].encoding(),
                );
            }
            i += 1;
        }
        proof {
            assert(self.lemma@.take(self.lemma@.len() as int) =~= self.lemma@);
        }
        let mut phead = u64_to_le_bytes(self.path.len() as u64);
        out.append(&mut phead);
        let ghost base = out@;
        proof {
            assert(self.path@.take(0) =~= Seq::<bool>::empty());
            assert(bools_bytes(Seq::<bool>::empty()) =~= Seq::<u8>::empty());
            assert(base + Seq::<u8>::empty() =~= base);
        }
        let mut j: usize = 0;
        while j < self.path.len()
            invariant
                j <= self.path@.len(),
                base == (spec_u64_to_le_bytes(self.lemma@.len() as u64) + elems_bytes(self.lemma@))
                    + spec_u64_to_le_bytes(self.path@.len() as u64),
                out@ == base + bools_bytes(self.path@.take(j as int)),
            decreases self.path@.len() - j,
        {
            let b: u8 = if self.path[j] {
                1
            } else {
                0
            };
            out.push(b);
            proof {
                let bb = bools_bytes(self.path@.take(j as int));
                assert(b == bool_byte(self.path@[j as int]));
                assert((base + bb).push(b) =~= (base + bb) + seq![b]);
                assert(bools_bytes(self.path@.take(j + 1)) =~= bb + seq![b]);
                lemma_concat_associative(base, bb, seq![b]);
            }
            j += 1;
        }
        proof {
            assert(self.path@.take(self.path@.len() as int) =~= self.path@);
        }
        out
    }

    /// Decodes a proof from its wire format.
    ///
    /// Succeeds exactly when the bytes begin with a complete encoding; a
    /// cut-short count, element or bit list, or a malformed direction
    /// byte, is a recoverable error, never a failure.  Bytes after a
    /// complete encoding are ignored.  The two construction shape
    /// invariants are deliberately not re-checked here: a decoded proof
    /// may have any shape, and `validate` is safe against every shape.
    pub fn from_bytes(bytes: &[u8]) -> (r: Result<Proof<T>, ()>)
        ensures
            r matches Ok(p) ==> proof_bytes(p.lemma_seq(), p.path_seq()).is_prefix_of(bytes@),
            forall|lem: Seq<T>, pth: Seq<bool>|
                lem.len() < 0x10000000000000000 && pth.len() < 0x10000000000000000 && (
                #[trigger] proof_bytes(lem, pth)).is_prefix_of(bytes@) ==> (r matches Ok(p)
                    && p.lemma_seq() == lem && p.path_seq() == pth),
    {
        proof {
            lemma_auto_spec_u64_to_from_le_bytes();
        }
        if bytes.len() < 8 {
            proof {
                assert forall|lem: Seq<T>, pth: Seq<bool>|
                    !(lem.len() < 0x10000000000000000 && pth.len() < 0x10000000000000000 && (
                    #[trigger] proof_bytes(lem, pth)).is_prefix_of(bytes@)) by {
                    if proof_bytes(lem, pth).is_prefix_of(bytes@) {
                        assert(proof_bytes(lem, pth).len() >= 8);
                    }
                }
            }
            return Err(());
        }
        let csub = slice_subrange(bytes, 0, 8);
        let count = u64_from_le_bytes(csub);
        proof {
            assert(csub@ =~= bytes@.take(8));
            assert(spec_u64_to_le_bytes(count) == bytes@.take(8));
            assert(bytes@.take(8) + elems_bytes(Seq::<T>::empty()) =~= bytes@.take(8));
        }
        let mut lemma: Vec<T> = Vec::new();
        let mut pos: usize = 8;
        let mut i: u64 = 0;
        while i < count
            invariant
                8 <= pos <= bytes@.len(),
                i <= count,
                lemma@.len() == i,
                bytes@.take(pos as int) == spec_u64_to_le_bytes(count) + elems_bytes(lemma@),
            decreases count - i,
        {
            match T::decode_from(bytes, pos) {
                Some(vp) => {
                    let (v, np) = vp;
                    proof {
                        lemma_elems_bytes_snoc(lemma@, v);
                        assert(bytes@.take(np as int) =~= bytes@.take(pos as int)
                            + bytes@.subrange(pos as int, np as int));
                        lemma_concat_associative(
                            spec_u64_to_le_bytes(count),
                            elems_bytes(lemma@),
                            v.encoding(),
                        );
                    }
                    lemma.push(v);
                    pos = np;
                    i = i + 1;
                },
                None => {
                    proof {
                        assert forall|lem: Seq<T>, pth: Seq<bool>|
                            !(lem.len() < 0x10000000000000000 && pth.len() < 0x10000000000000000
                                && (#[trigger] proof_bytes(lem, pth)).is_prefix_of(bytes@)) by {
                            if lem.len() < 0x10000000000000000 && pth.len()
                                < 0x10000000000000000 && proof_bytes(lem, pth).is_prefix_of(
                                bytes@,
                            ) {
                                lemma_parser_alignment(
                                    bytes@,
                                    lem,
                                    pth,
                                    count,
                                    lemma@,
                                    pos as int,
                                );
                                let q = lem.skip(i as int);
                                let tail = spec_u64_to_le_bytes(pth.len() as u64) + (bools_bytes(
                                    pth,
                                ) + bytes@.skip(proof_bytes(lem, pth).len() as int));
                                assert(q.len() > 0);
                                assert(elems_bytes(q) == q.first().encoding() + elems_bytes(
                                    q.drop_first(),
                                ));
                                assert(q.first() == lem[i as int]);
                                lemma_concat_associative(
                                    lem[i as int].encoding(),
                                    elems_bytes(q.drop_first()),
                                    tail,
                                );
                                lemma_left_is_prefix(
                                    lem[i as int].encoding(),
                                    elems_bytes(q.drop_first()) + tail,
                                );
                                assert(lem[i as int].encoding().is_prefix_of(
                                    bytes@.skip(pos as int),
                                ));
                                assert(false);
                            }
                        }
                    }
                    return Err(());
                },
            }
        }
        if bytes.len() - pos < 8 {
            proof {
                assert forall|lem: Seq<T>, pth: Seq<bool>|
                    !(lem.len() < 0x10000000000000000 && pth.len() < 0x10000000000000000 && (
                    #[trigger] proof_bytes(lem, pth)).is_prefix_of(bytes@)) by {
                    if lem.len() < 0x10000000000000000 && pth.len() < 0x10000000000000000
                        && proof_bytes(lem, pth).is_prefix_of(bytes@) {
                        lemma_parser_alignment(bytes@, lem, pth, count, lemma@, pos as int);
                        let tail = spec_u64_to_le_bytes(pth.len() as u64) + (bools_bytes(pth)
                            + bytes@.skip(proof_bytes(lem, pth).len() as int));
                        assert(lem.skip(lemma@.len() as int) =~= Seq::<T>::empty());
                        assert(Seq::<u8>::empty() + tail =~= tail);
                        assert(bytes@.skip(pos as int).len() >= 8);
                        assert(false);
                    }
                }
            }
            return Err(());
        }
        let csub2 = slice_subrange(bytes, pos, pos + 8);
        let count2 = u64_from_le_bytes(csub2);
        let mut bpos: usize = pos + 8;
        proof {
            assert(csub2@ =~= bytes@.subrange(pos as int, pos + 8));
            assert(spec_u64_to_le_bytes(count2) == csub2@);
            assert(bytes@.take(bpos as int) =~= bytes@.take(pos as int) + bytes@.subrange(
                pos as int,
                pos + 8,
            ));
            assert(bools_bytes(Seq::<bool>::empty()) =~= Seq::<u8>::empty());
            assert(((spec_u64_to_le_bytes(count) + elems_bytes(lemma@)) + spec_u64_to_le_bytes(
                count2,
            )) + Seq::<u8>::empty() =~= (spec_u64_to_le_bytes(count) + elems_bytes(lemma@))
                + spec_u64_to_le_bytes(count2));
        }
        let mut path: Vec<bool> = Vec::new();
        let mut j: u64 = 0;
        while j < count2
            invariant
                bpos <= bytes@.len(),
                j <= count2,
                path@.len() == j,
                lemma@.len() == count,
                bytes@.take(bpos as int) == ((spec_u64_to_le_bytes(count) + elems_bytes(lemma@))
                    + spec_u64_to_le_bytes(count2)) + bools_bytes(path@),
            decreases count2 - j,
        {
            if bpos >= bytes.len() {
                proof {
                    assert forall|lem: Seq<T>, pth: Seq<bool>|
                        !(lem.len() < 0x10000000000000000 && pth.len() < 0x10000000000000000
                            && (#[trigger] proof_bytes(lem, pth)).is_prefix_of(bytes@)) by {
                        if lem.len() < 0x10000000000000000 && pth.len() < 0x10000000000000000
                            && proof_bytes(lem, pth).is_prefix_of(bytes@) {
                            lemma_parser_alignment_bits(
                                bytes@,
                                lem,
                                pth,
                                count,
                                count2,
                                lemma@,
                                path@,
                                bpos as int,
                            );
                            assert(bytes@.skip(bpos as int).len() == 0);
                            assert(bools_bytes(pth.skip(j as int)).len() >= 1);
                            assert(false);
                        }
                    }
                }
                return Err(());
            }
            let b = *slice_index_get(bytes, bpos);
            if b == 0 || b == 1 {
                let bit = b == 1;
                proof {
                    let x = (spec_u64_to_le_bytes(count) + elems_bytes(lemma@))
                        + spec_u64_to_le_bytes(count2);
                    let bb = bools_bytes(path@);
                    assert(bool_byte(bit) == b);
                    assert(bytes@.take(bpos + 1) =~= bytes@.take(bpos as int) + seq![b]);
                    assert((x + bb) + seq![b] =~= bytes@.take(bpos + 1));
                    assert(bools_bytes(path@.push(bit)) =~= bb + seq![b]);
                    lemma_concat_associative(x, bb, seq![b]);
                }
                path.push(bit);
                bpos = bpos + 1;
                j = j + 1;
            } else {
                proof {
                    assert forall|lem: Seq<T>, pth: Seq<bool>|
                        !(lem.len() < 0x10000000000000000 && pth.len() < 0x10000000000000000
                            && (#[trigger] proof_bytes(lem, pth)).is_prefix_of(bytes@)) by {
                        if lem.len() < 0x10000000000000000 && pth.len() < 0x10000000000000000
                            && proof_bytes(lem, pth).is_prefix_of(bytes@) {
                            lemma_parser_alignment_bits(
                                bytes@,
                                lem,
                                pth,
                                count,
                                count2,
                                lemma@,
                                path@,
                                bpos as int,
                            );
                            let rest = bytes@.skip(proof_bytes(lem, pth).len() as int);
                            assert((bools_bytes(pth.skip(j as int)) + rest)[0] == bool_byte(
                                pth.skip(j as int)[0],
                            ));
                            assert(bytes@.skip(bpos as int)[0] == bytes@[bpos as int]);
                            assert(false);
                        }
                    }
                }
                return Err(());
            }
        }
        proof {
            assert(lemma@.len() as u64 == count);
            assert(path@.len() as u64 == count2);
            assert(bytes@.subrange(0, bpos as int) =~= bytes@.take(bpos as int));
            assert(proof_bytes(lemma@, path@).is_prefix_of(bytes@));
            assert forall|lem: Seq<T>, pth: Seq<bool>|
                lem.len() < 0x10000000000000000 && pth.len() < 0x10000000000000000 && (
                #[trigger] proof_bytes(lem, pth)).is_prefix_of(bytes@) implies (lemma@ == lem
                && path@ == pth) by {
                lemma_parser_alignment_bits(
                    bytes@,
                    lem,
                    pth,
                    count,
                    count2,
                    lemma@,
                    path@,
                    bpos as int,
                );
                assert(pth.take(path@.len() as int) =~= pth);
            }
        }
        Ok(Proof { lemma, path })
    }
}

/// A combiner with no collisions at all: it never maps two different
/// operand pairs to one parent hash.  A cryptographically sound hash has no
/// feasibly findable collision; the tampering laws below take this ideal
/// form of that assumption as a hypothesis.
pub open spec fn combiner_injective<T, A: HashCombiner<T>>() -> bool {
    forall|a: T, b: T, c: T, d: T|
        #![trigger A::combined(a, b), A::combined(c, d)]
        A::combined(a, b) == A::combined(c, d) ==> a == c && b == d
}

/// Folding reads only what it has consumed: two folds over data that agree
/// on the first `k + 1` lemma entries and the first `k` direction bits
/// derive the same hash after `k` steps.
pub proof fn lemma_derived_hash_congruence<T, A: HashCombiner<T>>(
    l1: Seq<T>,
    p1: Seq<bool>,
    l2: Seq<T>,
    p2: Seq<bool>,
    k: int,
)
    requires
        0 <= k,
        forall|j: int| 0 <= j <= k ==> l1[j] == l2[j],
        forall|j: int| 0 <= j < k ==> p1[j] == p2[j],
    ensures
        derived_hash::<T, A>(l1, p1, k) == derived_hash::<T, A>(l2, p2, k),
    decreases k,
{
    if k > 0 {
        lemma_derived_hash_congruence::<T, A>(l1, p1, l2, p2, k - 1);
        let d = derived_hash::<T, A>(l1, p1, k - 1);
        assert(l1[k] == l2[k]);
        assert(p1[k - 1] == p2[k - 1]);
        if p1[k - 1] {
            assert(derived_hash::<T, A>(l1, p1, k) == A::combined(d, l1[k]));
            assert(derived_hash::<T, A>(l2, p2, k) == A::combined(d, l2[k]));
        } else {
            assert(derived_hash::<T, A>(l1, p1, k) == A::combined(l1[k], d));
            assert(derived_hash::<T, A>(l2, p2, k) == A::combined(l2[k], d));
        }
    } else {
        assert(l1[0] == l2[0]);
    }
}

/// Once two folds' running hashes differ, and the remaining entries and
/// bits agree, an injective combiner keeps them different.
pub proof fn lemma_derived_hash_propagates<T, A: HashCombiner<T>>(
    l1: Seq<T>,
    p1: Seq<bool>,
    l2: Seq<T>,
    p2: Seq<bool>,
    m: int,
    k: int,
)
    requires
        combiner_injective::<T, A>(),
        0 <= m <= k,
        derived_hash::<T, A>(l1, p1, m) != derived_hash::<T, A>(l2, p2, m),
        forall|j: int| m < j <= k ==> l1[j] == l2[j],
        forall|j: int| m <= j < k ==> p1[j] == p2[j],
    ensures
        derived_hash::<T, A>(l1, p1, k) != derived_hash::<T, A>(l2, p2, k),
    decreases k - m,
{
    if k > m {
        lemma_derived_hash_propagates::<T, A>(l1, p1, l2, p2, m, k - 1);
        let d1 = derived_hash::<T, A>(l1, p1, k - 1);
        let d2 = derived_hash::<T, A>(l2, p2, k - 1);
        assert(l1[k] == l2[k]);
        assert(p1[k - 1] == p2[k - 1]);
        if p1[k - 1] {
            assert(derived_hash::<T, A>(l1, p1, k) == A::combined(d1, l1[k]));
            assert(derived_hash::<T, A>(l2, p2, k) == A::combined(d2, l2[k]));
        } else {
            assert(derived_hash::<T, A>(l1, p1, k) == A::combined(l1[k], d1));
            assert(derived_hash::<T, A>(l2, p2, k) == A::combined(l2[k], d2));
        }
    }
}

/// Replacing any single interior lemma entry (a sibling; neither the leaf
/// nor the root) of a validating proof with a different value makes
/// validation fail, under a collision-free combiner.
pub proof fn lemma_tampered_sibling_invalidates<T, A: HashCombiner<T>>(
    lemma: Seq<T>,
    path: Seq<bool>,
    i: int,
    x: T,
)
    requires
        combiner_injective::<T, A>(),
        spec_valid::<T, A>(lemma, path),
        1 <= i < lemma.len() - 1,
        x != lemma[i],
    ensures
        !spec_valid::<T, A>(lemma.update(i, x), path),
{
    let l2 = lemma.update(i, x);
    lemma_derived_hash_congruence::<T, A>(lemma, path, l2, path, i - 1);
    let d = derived_hash::<T, A>(lemma, path, i - 1);
    assert(derived_hash::<T, A>(lemma, path, i) != derived_hash::<T, A>(l2, path, i)) by {
        if path[i - 1] {
            assert(derived_hash::<T, A>(lemma, path, i) == A::combined(d, lemma[i]));
            assert(derived_hash::<T, A>(l2, path, i) == A::combined(d, x));
        } else {
            assert(derived_hash::<T, A>(lemma, path, i) == A::combined(lemma[i], d));
            assert(derived_hash::<T, A>(l2, path, i) == A::combined(x, d));
        }
    }
    lemma_derived_hash_propagates::<T, A>(lemma, path, l2, path, i, lemma.len() - 2);
}

/// Flipping any single direction bit that validation consumes makes a
/// validating proof fail, under a collision-free combiner — except in the
/// degenerate case where the two operands at the flipped step are equal,
/// which the hypotheses rule out.
pub proof fn lemma_flipped_direction_invalidates<T, A: HashCombiner<T>>(
    lemma: Seq<T>,
    path: Seq<bool>,
    j: int,
)
    requires
        combiner_injective::<T, A>(),
        spec_valid::<T, A>(lemma, path),
        0 <= j < lemma.len() - 2,
        derived_hash::<T, A>(lemma, path, j) != lemma[j + 1],
    ensures
        !spec_valid::<T, A>(lemma, path.update(j, !path[j])),
{
    let p2 = path.update(j, !path[j]);
    lemma_derived_hash_congruence::<T, A>(lemma, path, lemma, p2, j);
    let d = derived_hash::<T, A>(lemma, path, j);
    let s = lemma[j + 1];
    assert(derived_hash::<T, A>(lemma, path, j + 1) != derived_hash::<T, A>(lemma, p2, j + 1))
        by {
        if path[j] {
            assert(derived_hash::<T, A>(lemma, path, j + 1) == A::combined(d, s));
            assert(derived_hash::<T, A>(lemma, p2, j + 1) == A::combined(s, d));
        } else {
            assert(derived_hash::<T, A>(lemma, path, j + 1) == A::combined(s, d));
            assert(derived_hash::<T, A>(lemma, p2, j + 1) == A::combined(d, s));
        }
    }
    lemma_derived_hash_propagates::<T, A>(lemma, path, lemma, p2, j + 1, lemma.len() - 2);
}

/// Validation is idempotent: its outcome is a function of the proof value
/// alone, so repeated validations of one proof, each with a fresh combiner
/// of the same capability, always agree.
pub proof fn lemma_validate_idempotent<T, A: HashCombiner<T>>(
    lemma: Seq<T>,
    path: Seq<bool>,
    r1: bool,
    r2: bool,
)
    requires
        r1 == spec_valid::<T, A>(lemma, path),
        r2 == spec_valid::<T, A>(lemma, path),
    ensures
        r1 == r2,
{
}

} // verus!
