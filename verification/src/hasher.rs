use vstd::prelude::*;

verus! {

/// The Keccak-256 digest of a byte sequence. Left abstract: the contracts of
/// this crate speak of it by name only, never of its value on given bytes.
pub uninterp spec fn keccak256_of(data: Seq<u8>) -> Seq<u8>;

/// Digest of an internal node: Keccak-256 of the left child's digest followed
/// by the right child's digest.
pub open spec fn merge_of(left: Seq<u8>, right: Seq<u8>) -> Seq<u8> {
    keccak256_of(left + right)
}

/// Digest a raw leaf payload is hashed to before it enters the range.
pub open spec fn leaf_digest_of(payload: Seq<u8>) -> Seq<u8> {
    keccak256_of(payload)
}

/// Relies on tiny_keccak (Keccak::v256, Hasher::update, Hasher::finalize):
/// the Keccak-256 digest of the input bytes, 32 bytes wide, a pure function
/// of the input alone.
#[verifier::external_body]
fn keccak256(data: &[u8]) -> (r: Vec<u8>)
    ensures
        r@ == keccak256_of(data@),
        r@.len() == 32,
{
    let mut keccak = tiny_keccak::Keccak::v256();
    let mut out = [0u8; 32];
    tiny_keccak::Hasher::update(&mut keccak, data);
    tiny_keccak::Hasher::finalize(keccak, &mut out);
    out.to_vec()
}

/// Hash a raw leaf payload into its 32-byte leaf digest.
pub fn hash_leaf(data: &[u8]) -> (r: Vec<u8>)
    ensures
        r@ == leaf_digest_of(data@),
        r@.len() == 32,
{
    keccak256(data)
}

/// The merge function of the range: Keccak-256 over the two child digests.
pub struct KeccakMerge;

impl KeccakMerge {
    /// Merge two child digests, left child before right child.
    pub fn merge(left: &Vec<u8>, right: &Vec<u8>) -> (r: Vec<u8>)
        ensures
            r@ == merge_of(left@, right@),
            r@.len() == 32,
    {
        let mut input: Vec<u8> = Vec::new();
        let mut i: usize = 0;
        while i < left.len()
            invariant
                i <= left@.len(),
                input@ == left@.subrange(0, i as int),
            decreases left@.len() - i,
        {
            input.push(left[i]);
            i = i + 1;
        }
        let mut j: usize = 0;
        while j < right.len()
            invariant
                i == left@.len(),
                input@ == left@.subrange(0, i as int) + right@.subrange(0, j as int),
                j <= right@.len(),
            decreases right@.len() - j,
        {
            input.push(right[j]);
            j = j + 1;
        }
        assert(input@ =~= left@ + right@);
        keccak256(input.as_slice())
    }
}

} // verus!
