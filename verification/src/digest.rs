//! Content digests.  A digest is a fixed-width hash of a file's full byte
//! stream; equal digests are taken to mean equal content.

use vstd::prelude::*;

verus! {

/// Number of bytes in a content digest.
pub const DIGEST_LEN: usize = 32;

/// The digest that the content hash assigns to a byte string.  It is a
/// function of the bytes alone; nothing more is assumed of it than its
/// length.
pub uninterp spec fn digest_of(content: Seq<u8>) -> Seq<u8>;

/// A fixed-width content digest.
#[derive(Debug, Clone)]
pub struct Digest {
    pub bytes: Vec<u8>,
}

impl View for Digest {
    type V = Seq<u8>;

    open spec fn view(&self) -> Seq<u8> {
        self.bytes@
    }
}

impl Digest {
    /// A digest is well formed when it has the fixed width.
    pub open spec fn wf(self) -> bool {
        self@.len() == DIGEST_LEN
    }

    /// Wrap raw digest bytes read back from the cache.
    pub fn from_bytes(bytes: Vec<u8>) -> (r: Digest)
        requires
            bytes@.len() == DIGEST_LEN,
        ensures
            r@ == bytes@,
            r.wf(),
    {
        Digest { bytes }
    }

    /// An identical copy of the digest.
    pub fn duplicate(&self) -> (r: Digest)
        ensures
            r@ == self@,
    {
        let mut bytes: Vec<u8> = Vec::new();
        let n = self.bytes.len();
        for i in 0..n
            invariant
                n == self.bytes@.len(),
                bytes@ == self.bytes@.take(i as int),
        {
            bytes.push(self.bytes[i]);
            proof {
                assert(bytes@ =~= self.bytes@.take(i + 1));
            }
        }
        proof {
            assert(bytes@ =~= self.bytes@);
        }
        Digest { bytes }
    }

    /// Byte-wise digest equality; by the collision-freedom assumption this
    /// decides content equality.
    pub fn eq_digest(&self, other: &Digest) -> (r: bool)
        ensures
            r == (self@ == other@),
    {
        if self.bytes.len() != other.bytes.len() {
            assert(self@.len() != other@.len());
            return false;
        }
        let n = self.bytes.len();
        for i in 0..n
            invariant
                n == self@.len(),
                n == other@.len(),
                forall|j: int| 0 <= j < i ==> self@[j] == other@[j],
        {
            if self.bytes[i] != other.bytes[i] {
                return false;
            }
        }
        assert(self@ =~= other@);
        true
    }
}

/// Relies on blake3::hash: a pure 32-byte digest of the input bytes,
/// a function of the bytes alone.
#[verifier::external_body]
fn blake3_digest(content: &[u8]) -> (r: Digest)
    ensures
        r@ == digest_of(content@),
        r@.len() == DIGEST_LEN,
{
    Digest { bytes: blake3::hash(content).as_bytes().to_vec() }
}

/// The digest of a byte string.  The caller reads a file's full contents
/// and hands them here; the result is what the cache and the duplicate
/// groups speak of.
pub fn content_digest(content: &[u8]) -> (r: Digest)
    ensures
        r@ == digest_of(content@),
        r.wf(),
{
    blake3_digest(content)
}

} // verus!
