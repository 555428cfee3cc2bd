use vstd::prelude::*;

verus! {

/// The all-zero digest, the defined sentinel value.
pub open spec fn spec_zero_digest() -> Seq<u8> {
    Seq::new(32, |i: int| 0u8)
}

/// A fixed-width cryptographic hash value identifying a node by its content.
///
/// The bytes come from an external hash function; this crate treats them as an
/// opaque, equality-comparable key and never recomputes them. The all-zero
/// value serves as a sentinel where no digest has been collected yet.
#[derive(Clone, Copy, Debug, PartialEq, Eq, Hash)]
pub struct Digest {
    bytes: [u8; 32],
}

impl View for Digest {
    type V = Seq<u8>;

    closed spec fn view(&self) -> Seq<u8> {
        self.bytes@
    }
}

impl Digest {
    /// Wraps raw bytes produced by an external hasher.
    pub fn new(bytes: [u8; 32]) -> (d: Digest)
        ensures
            d@ == bytes@,
    {
        Digest { bytes }
    }

    /// The all-zero sentinel digest.
    pub fn zeroed() -> (d: Digest)
        ensures
            d@ == spec_zero_digest(),
    {
        let bytes = [0u8; 32];
        proof {
            assert(bytes@ =~= spec_zero_digest());
        }
        Digest { bytes }
    }

    /// Byte-for-byte comparison: digests with equal bytes name the same node.
    pub fn equals(&self, other: &Digest) -> (r: bool)
        ensures
            r == (self@ == other@),
    {
        let mut i: usize = 0;
        while i < 32
            invariant
                i <= 32,
                forall|j: int| 0 <= j < i ==> self.bytes@[j] == other.bytes@[j],
            decreases 32 - i,
        {
            if self.bytes[i] != other.bytes[i] {
                return false;
            }
            i = i + 1;
        }
        proof {
            assert(self.bytes@ =~= other.bytes@);
        }
        true
    }
}

} // verus!
