//! The hash primitive shared by every structure of the crate: SHA-256 of a
//! leaf's bytes, and SHA-256 of the plain concatenation of two digests.

use vstd::prelude::*;

verus! {

/// Number of bytes in a digest.
pub const DIGEST_LEN: usize = 32;

/// The SHA-256 digest of a byte sequence.
pub uninterp spec fn sha256_of(data: Seq<u8>) -> Seq<u8>;

/// Relies on `sha2::Sha256::digest`: the SHA-256 digest of `data`, which is a
/// function of the bytes alone and is always 32 bytes long.
#[verifier::external_body]
pub(crate) fn sha256(data: &[u8]) -> (r: Vec<u8>)
    ensures
        r@ == sha256_of(data@),
        r@.len() == DIGEST_LEN,
{
    <sha2::Sha256 as sha2::Digest>::digest(data).to_vec()
}

/// The digest of a leaf: the hash of its bytes.
pub open spec fn leaf_hash_spec(data: Seq<u8>) -> Seq<u8> {
    sha256_of(data)
}

/// The digest of an inner node: the hash of its children's digests, left
/// then right, concatenated with no separator.
pub open spec fn pair_hash_spec(left: Seq<u8>, right: Seq<u8>) -> Seq<u8> {
    sha256_of(left + right)
}

/// Whether a pair of byte sequences is a SHA-256 collision: two different
/// sequences with the same digest.
pub open spec fn is_collision(pair: (Seq<u8>, Seq<u8>)) -> bool {
    pair.0 != pair.1 && sha256_of(pair.0) == sha256_of(pair.1)
}

/// Every SHA-256 digest is `DIGEST_LEN` bytes long.
pub open spec fn sha256_fixed_length() -> bool {
    forall|x: Seq<u8>| #[trigger] sha256_of(x).len() == DIGEST_LEN
}

/// Two different left children under one right child give the same node
/// digest only if their concatenations with it collide.
pub proof fn lemma_pair_left_collides(a: Seq<u8>, b: Seq<u8>, right: Seq<u8>)
    requires
        a != b,
        pair_hash_spec(a, right) == pair_hash_spec(b, right),
    ensures
        is_collision((a + right, b + right)),
{
    if a + right == b + right {
        assert((a + right).len() == a.len() + right.len());
        assert((b + right).len() == b.len() + right.len());
        assert(a.len() == b.len());
        assert(a =~= (a + right).subrange(0, a.len() as int));
        assert(b =~= (b + right).subrange(0, b.len() as int));
    }
}

/// Two different right children under one left child give the same node
/// digest only if their concatenations with it collide.
pub proof fn lemma_pair_right_collides(left: Seq<u8>, a: Seq<u8>, b: Seq<u8>)
    requires
        a != b,
        pair_hash_spec(left, a) == pair_hash_spec(left, b),
    ensures
        is_collision((left + a, left + b)),
{
    if left + a == left + b {
        assert(a =~= (left + a).subrange(left.len() as int, (left + a).len() as int));
        assert(b =~= (left + b).subrange(left.len() as int, (left + b).len() as int));
    }
}

/// A copy of a byte slice.
pub fn copy_bytes(data: &[u8]) -> (r: Vec<u8>)
    ensures
        r@ == data@,
{
    vstd::slice::slice_to_vec(data)
}

/// Whether two byte slices hold the same bytes.
pub fn bytes_equal(a: &[u8], b: &[u8]) -> (r: bool)
    ensures
        r == (a@ == b@),
{
    if a.len() != b.len() {
        return false;
    }
    let mut i: usize = 0;
    while i < a.len()
        invariant
            a@.len() == b@.len(),
            0 <= i <= a@.len(),
            a@.subrange(0, i as int) == b@.subrange(0, i as int),
        decreases a@.len() - i,
    {
        if a[i] != b[i] {
            assert(a@[i as int] != b@[i as int]);
            return false;
        }
        assert(a@.subrange(0, i + 1) == a@.subrange(0, i as int).push(a@[i as int]));
        assert(b@.subrange(0, i + 1) == b@.subrange(0, i as int).push(b@[i as int]));
        i = i + 1;
    }
    assert(a@ == a@.subrange(0, a@.len() as int));
    assert(b@ == b@.subrange(0, b@.len() as int));
    true
}

/// The digest of a leaf: SHA-256 of its bytes.
pub fn leaf_hash(data: &[u8]) -> (r: Vec<u8>)
    ensures
        r@ == leaf_hash_spec(data@),
        r@.len() == DIGEST_LEN,
{
    sha256(data)
}

/// The digest of an inner node: SHA-256 of `left` followed by `right`.
pub fn pair_hash(left: &[u8], right: &[u8]) -> (r: Vec<u8>)
    ensures
        r@ == pair_hash_spec(left@, right@),
        r@.len() == DIGEST_LEN,
{
    let mut joined = copy_bytes(left);
    let mut i: usize = 0;
    while i < right.len()
        invariant
            0 <= i <= right@.len(),
            joined@ == left@ + right@.subrange(0, i as int),
        decreases right@.len() - i,
    {
        joined.push(right[i]);
        assert(right@.subrange(0, i + 1) == right@.subrange(0, i as int).push(right@[i as int]));
        i = i + 1;
    }
    assert(right@.subrange(0, right@.len() as int) == right@);
    sha256(joined.as_slice())
}

} // verus!
