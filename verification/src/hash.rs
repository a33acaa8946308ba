//! Digests: the 256-bit keys under which blobs are stored.

use vstd::prelude::*;
use vstd::slice::slice_to_vec;

verus! {

/// A 256-bit digest. Its view is the sequence of its 32 bytes.
#[derive(Clone, Copy, Debug, PartialEq, Eq, Hash)]
pub struct H256(pub [u8; 32]);

impl View for H256 {
    type V = Seq<u8>;

    open spec fn view(&self) -> Seq<u8> {
        self.0@
    }
}

/// The Keccak-256 digest of a byte sequence: what `tiny_keccak`'s `Keccak::v256`
/// hasher squeezes out after absorbing `data`.
pub uninterp spec fn keccak256(data: Seq<u8>) -> Seq<u8>;

/// Hashes `data` with `tiny_keccak::Keccak::v256()`: one `update` with the whole
/// input, then `finalize` into 32 bytes. The contract only gives that output a
/// name; that it is 32 bytes long follows from the type.
#[verifier::external_body]
fn keccak(data: &[u8]) -> (h: H256)
    ensures
        h@ == keccak256(data@),
{
    let mut hasher = tiny_keccak::Keccak::v256();
    let mut out = [0u8; 32];
    tiny_keccak::Hasher::update(&mut hasher, data);
    tiny_keccak::Hasher::finalize(hasher, &mut out);
    H256(out)
}

impl H256 {
    /// The Keccak-256 digest of `data`.
    pub fn of(data: &[u8]) -> (h: H256)
        ensures
            h@ == keccak256(data@),
    {
        keccak(data)
    }

    /// The digest made of the 32 bytes of `src`.
    pub fn from_slice(src: &[u8]) -> (h: H256)
        requires
            src@.len() == 32,
        ensures
            h@ == src@,
    {
        let mut bytes = [0u8; 32];
        let mut i: usize = 0;
        while i < 32
            invariant
                i <= 32,
                src@.len() == 32,
                forall|j: int| 0 <= j < i ==> bytes@[j] == src@[j],
            decreases 32 - i,
        {
            bytes[i] = src[i];
            i += 1;
        }
        let h = H256(bytes);
        assert(h@ =~= src@);
        h
    }

    /// The digest's 32 bytes, as the key under which a record is stored.
    pub fn bytes(&self) -> (out: Vec<u8>)
        ensures
            out@ == self@,
            out@.len() == 32,
    {
        slice_to_vec(self.0.as_slice())
    }

    /// Whether two digests hold the same bytes.
    pub fn same(&self, other: &H256) -> (r: bool)
        ensures
            r == (self@ == other@),
    {
        let mut i: usize = 0;
        while i < 32
            invariant
                i <= 32,
                forall|j: int| 0 <= j < i ==> self@[j] == other@[j],
            decreases 32 - i,
        {
            if self.0[i] != other.0[i] {
                return false;
            }
            i += 1;
        }
        assert(self@ =~= other@);
        true
    }
}

} // verus!
