//! Content fingerprints.
//!
//! A `ContentHash` is a fixed-size digest deterministically derived from file
//! bytes; equal fingerprints are treated as equal content. The byte-level
//! hashing primitive that produces digests is an external collaborator: this
//! module only owns the digest value and its comparisons, which is all the
//! changeset computation needs.

use vstd::prelude::*;

verus! {

/// A content fingerprint: the bytes of a digest.
#[derive(Debug)]
pub struct ContentHash {
    bytes: Vec<u8>,
}

impl View for ContentHash {
    type V = Seq<u8>;

    closed spec fn view(&self) -> Seq<u8> {
        self.bytes@
    }
}

impl ContentHash {
    /// Wrap digest bytes as a fingerprint.
    pub fn from_bytes(bytes: Vec<u8>) -> (r: ContentHash)
        ensures
            r@ == bytes@,
    {
        ContentHash { bytes }
    }

    /// The digest bytes.
    pub fn as_bytes(&self) -> (r: &Vec<u8>)
        ensures
            r@ == self@,
    {
        &self.bytes
    }

    /// Byte-for-byte equality of two fingerprints.
    pub fn equals(&self, other: &ContentHash) -> (r: bool)
        ensures
            r == (self@ == other@),
    {
        if self.bytes.len() != other.bytes.len() {
            assert(self@.len() != other@.len());
            return false;
        }
        let n = self.bytes.len();
        let mut i: usize = 0;
        while i < n
            invariant
                n == self@.len(),
                n == other@.len(),
                0 <= i <= n,
                forall|k: int| 0 <= k < i ==> self@[k] == other@[k],
            decreases n - i,
        {
            if self.bytes[i] != other.bytes[i] {
                assert(self@[i as int] != other@[i as int]);
                return false;
            }
            i += 1;
        }
        assert(self@ =~= other@);
        true
    }

    /// An independent copy of this fingerprint.
    pub fn duplicate(&self) -> (r: ContentHash)
        ensures
            r@ == self@,
    {
        let mut bytes: Vec<u8> = Vec::new();
        let n = self.bytes.len();
        let mut i: usize = 0;
        while i < n
            invariant
                n == self@.len(),
                0 <= i <= n,
                bytes@ == self@.take(i as int),
            decreases n - i,
        {
            bytes.push(self.bytes[i]);
            assert(bytes@ =~= self@.take(i + 1 as int));
            i += 1;
        }
        assert(bytes@ =~= self@);
        ContentHash { bytes }
    }
}

} // verus!
