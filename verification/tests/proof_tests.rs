use merkle::hash::HashCombiner;
use merkle::Proof;

/// An order-sensitive test combiner over `u64`: parent = 2*left + 3*right + 1
/// (wrapping).  It tracks whether it was reset, as a streaming hasher with
/// internal state would, and insists on a reset before every combination.
struct Mix {
    clean: bool,
}

impl HashCombiner<u64> for Mix {
    // The two model items of the capability, mirrored as plain functions.
    fn combined(left: u64, right: u64) -> u64 {
        mix(left, right)
    }

    fn ready(&self) -> bool {
        self.clean
    }

    fn fresh() -> Mix {
        Mix { clean: false }
    }

    fn reset(&mut self) {
        self.clean = true;
    }

    fn node(&mut self, left: u64, right: u64) -> u64 {
        assert!(self.clean, "node called without a fresh reset");
        self.clean = false;
        left.wrapping_mul(2).wrapping_add(right.wrapping_mul(3)).wrapping_add(1)
    }
}

fn mix(left: u64, right: u64) -> u64 {
    left.wrapping_mul(2).wrapping_add(right.wrapping_mul(3)).wrapping_add(1)
}

#[test]
fn validate_single_level_left() {
    // Leaf is the left child: combine(H(leaf), H(sibling)) must equal the root.
    let root = mix(5, 7);
    let p = Proof::new(vec![5u64, 7, root], vec![true]);
    assert!(p.validate::<Mix>());
    let wrong = Proof::new(vec![5u64, 7, root + 1], vec![true]);
    assert!(!wrong.validate::<Mix>());
}

#[test]
fn validate_single_level_right() {
    // Same lemma, path = [false]: the sibling becomes the left operand, so
    // the derived hash is combine(7, 5), which differs from combine(5, 7).
    let root = mix(5, 7);
    assert_ne!(mix(7, 5), root);
    let p = Proof::new(vec![5u64, 7, root], vec![false]);
    assert!(!p.validate::<Mix>());
    let q = Proof::new(vec![5u64, 7, mix(7, 5)], vec![false]);
    assert!(q.validate::<Mix>());
}

#[test]
fn validate_two_levels() {
    // A full walk of a two-level tree: leaves 3, 4, 5, 6.
    let n1 = mix(3, 4);
    let n2 = mix(5, 6);
    let root = mix(n1, n2);
    // Proof for leaf 4: right child of n1 (bit false), then left side of
    // the root (bit true); siblings are 3, then n2, ordered leaf to root.
    let p = Proof::new(vec![4u64, 3, n2, root], vec![false, true]);
    assert!(p.validate::<Mix>());
    // Proof for leaf 5: left child of n2, right side of the root.
    let q = Proof::new(vec![5u64, 6, n1, root], vec![true, false]);
    assert!(q.validate::<Mix>());
}

#[test]
fn tampered_sibling_rejected() {
    let n1 = mix(3, 4);
    let n2 = mix(5, 6);
    let root = mix(n1, n2);
    let tampered = Proof::new(vec![4u64, 9, n2, root], vec![false, true]);
    assert!(!tampered.validate::<Mix>());
    let tampered_upper = Proof::new(vec![4u64, 3, n2 + 1, root], vec![false, true]);
    assert!(!tampered_upper.validate::<Mix>());
}

#[test]
fn flipped_direction_rejected() {
    let n1 = mix(3, 4);
    let n2 = mix(5, 6);
    let root = mix(n1, n2);
    let flipped_low = Proof::new(vec![4u64, 3, n2, root], vec![true, true]);
    assert!(!flipped_low.validate::<Mix>());
    let flipped_high = Proof::new(vec![4u64, 3, n2, root], vec![false, false]);
    assert!(!flipped_high.validate::<Mix>());
}

#[test]
fn validate_is_idempotent() {
    let root = mix(5, 7);
    let good = Proof::new(vec![5u64, 7, root], vec![true]);
    let bad = Proof::new(vec![5u64, 7, root], vec![false]);
    for _ in 0..3 {
        assert!(good.validate::<Mix>());
        assert!(!bad.validate::<Mix>());
    }
}

#[test]
fn accessors() {
    let root = mix(5, 7);
    let p = Proof::new(vec![5u64, 7, root], vec![true]);
    assert_eq!(p.item(), 5);
    assert_eq!(p.root(), root);
    assert_eq!(p.lemma(), vec![5, 7, root]);
    assert_eq!(p.path(), vec![true]);
}

#[test]
fn round_trip() {
    let n1 = mix(3, 4);
    let n2 = mix(5, 6);
    let root = mix(n1, n2);
    let p = Proof::new(vec![4u64, 3, n2, root], vec![false, true]);
    let bytes = p.into_bytes();
    assert_eq!(Proof::<u64>::from_bytes(&bytes), Ok(p));
}

#[test]
fn wire_format_bytes() {
    let p = Proof::new(vec![5u64, 7, 9], vec![true]);
    let mut expected: Vec<u8> = Vec::new();
    expected.extend_from_slice(&3u64.to_le_bytes());
    expected.extend_from_slice(&5u64.to_le_bytes());
    expected.extend_from_slice(&7u64.to_le_bytes());
    expected.extend_from_slice(&9u64.to_le_bytes());
    expected.extend_from_slice(&1u64.to_le_bytes());
    expected.push(1);
    assert_eq!(p.into_bytes(), expected);
    // Encoding the same proof value twice yields the same bytes.
    assert_eq!(p.into_bytes(), p.into_bytes());
}

#[test]
fn decode_ignores_trailing_bytes() {
    let p = Proof::new(vec![5u64, 7, 9], vec![true]);
    let mut bytes = p.into_bytes();
    bytes.extend_from_slice(&[0xaa, 0xbb, 0xcc]);
    assert_eq!(Proof::<u64>::from_bytes(&bytes), Ok(p));
}

#[test]
fn decode_truncated_rejected() {
    let p = Proof::new(vec![5u64, 7, 9], vec![true]);
    let bytes = p.into_bytes();
    for cut in 0..bytes.len() {
        assert_eq!(Proof::<u64>::from_bytes(&bytes[..cut]), Err(()));
    }
}

#[test]
fn decode_bad_direction_byte_rejected() {
    let p = Proof::new(vec![5u64, 7, 9], vec![true]);
    let mut bytes = p.into_bytes();
    let last = bytes.len() - 1;
    bytes[last] = 2;
    assert_eq!(Proof::<u64>::from_bytes(&bytes), Err(()));
}

#[test]
fn short_decoded_proof_validates_false() {
    // A crafted encoding with a single lemma entry and no path decodes
    // fine — decode does not re-check the construction shapes — but the
    // proof then fails validation rather than failing loudly.
    let mut bytes: Vec<u8> = Vec::new();
    bytes.extend_from_slice(&1u64.to_le_bytes());
    bytes.extend_from_slice(&42u64.to_le_bytes());
    bytes.extend_from_slice(&0u64.to_le_bytes());
    let p = Proof::<u64>::from_bytes(&bytes).unwrap();
    assert_eq!(p.lemma(), vec![42]);
    assert_eq!(p.path(), vec![]);
    assert!(!p.validate::<Mix>());
}

#[test]
fn empty_decoded_proof_validates_false() {
    let mut bytes: Vec<u8> = Vec::new();
    bytes.extend_from_slice(&0u64.to_le_bytes());
    bytes.extend_from_slice(&0u64.to_le_bytes());
    let p = Proof::<u64>::from_bytes(&bytes).unwrap();
    assert_eq!(p.lemma(), vec![]);
    assert!(!p.validate::<Mix>());
}

#[test]
fn two_entry_decoded_proof_compares_leaf_to_root() {
    // With exactly a leaf and a root, the fold runs no steps: validation
    // compares the two entries directly.
    let mut bytes: Vec<u8> = Vec::new();
    bytes.extend_from_slice(&2u64.to_le_bytes());
    bytes.extend_from_slice(&42u64.to_le_bytes());
    bytes.extend_from_slice(&42u64.to_le_bytes());
    bytes.extend_from_slice(&0u64.to_le_bytes());
    let p = Proof::<u64>::from_bytes(&bytes).unwrap();
    assert!(p.validate::<Mix>());
    let mut other: Vec<u8> = Vec::new();
    other.extend_from_slice(&2u64.to_le_bytes());
    other.extend_from_slice(&42u64.to_le_bytes());
    other.extend_from_slice(&43u64.to_le_bytes());
    other.extend_from_slice(&0u64.to_le_bytes());
    let q = Proof::<u64>::from_bytes(&other).unwrap();
    assert!(!q.validate::<Mix>());
}
