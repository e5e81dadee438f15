//! A binary Merkle tree over a fixed, non-empty batch of items, with
//! inclusion proofs. Each level is reduced pairwise; a trailing unpaired node
//! is carried to the next level unchanged.

use vstd::prelude::*;
use vstd::string::StringSliceAdditionalSpecFns;

use crate::hashing::{
    bytes_equal, copy_bytes, lemma_pair_left_collides, lemma_pair_right_collides, leaf_hash_spec,
    pair_hash, pair_hash_spec, is_collision, DIGEST_LEN,
};

verus! {

/// Why a Merkle tree operation was refused.
#[derive(Debug, Clone, Copy, PartialEq, Eq, Structural)]
pub enum MerkleError {
    /// The tree was built from no items.
    EmptyInput,
    /// A proof was asked for a leaf that the tree does not hold.
    IndexOutOfRange,
}

/// One step of an inclusion proof: the sibling's digest, and whether the
/// node being proved sits on the left (so the sibling goes on the right).
pub type ProofStep = (Vec<u8>, bool);

/// The digests of a sequence of byte vectors.
pub open spec fn digests(v: Seq<Vec<u8>>) -> Seq<Seq<u8>> {
    v.map_values(|d: Vec<u8>| d@)
}

/// The steps of a proof as plain values.
pub open spec fn proof_view(p: Seq<ProofStep>) -> Seq<(Seq<u8>, bool)> {
    p.map_values(|s: ProofStep| (s.0@, s.1))
}

/// The node at position `i` of the level above `level`.
pub open spec fn parent_node(level: Seq<Seq<u8>>, i: int) -> Seq<u8> {
    if 2 * i + 1 < level.len() {
        pair_hash_spec(level[2 * i], level[2 * i + 1])
    } else {
        level[2 * i]
    }
}

/// The level above `level`: consecutive pairs hashed together, a trailing
/// unpaired node carried up unchanged.
pub open spec fn level_up(level: Seq<Seq<u8>>) -> Seq<Seq<u8>> {
    Seq::new(((level.len() + 1) / 2) as nat, |i: int| parent_node(level, i))
}

/// The root over a non-empty level: levels are reduced until one node is left.
pub open spec fn root_of(level: Seq<Seq<u8>>) -> Seq<u8>
    decreases level.len(),
{
    if level.len() <= 1 {
        level[0]
    } else {
        root_of(level_up(level))
    }
}

/// The inclusion proof of the node at `index` of `level`: one step for each
/// level on which that node (or its ancestor) has a sibling.
pub open spec fn proof_of(level: Seq<Seq<u8>>, index: int) -> Seq<(Seq<u8>, bool)>
    decreases level.len(),
{
    if level.len() <= 1 {
        Seq::empty()
    } else {
        let sibling = if index % 2 == 0 { index + 1 } else { index - 1 };
        let rest = proof_of(level_up(level), index / 2);
        if sibling < level.len() {
            seq![(level[sibling], index % 2 == 0)] + rest
        } else {
            rest
        }
    }
}

/// One step of proof verification.
pub open spec fn apply_step(current: Seq<u8>, step: (Seq<u8>, bool)) -> Seq<u8> {
    if step.1 {
        pair_hash_spec(current, step.0)
    } else {
        pair_hash_spec(step.0, current)
    }
}

/// The digest that a proof leads to from `leaf`.
pub open spec fn fold_proof(leaf: Seq<u8>, proof: Seq<(Seq<u8>, bool)>) -> Seq<u8>
    decreases proof.len(),
{
    if proof.len() == 0 {
        leaf
    } else {
        fold_proof(apply_step(leaf, proof[0]), proof.drop_first())
    }
}

/// A Merkle tree over a non-empty sequence of leaf digests.
pub struct MerkleTree {
    root: Vec<u8>,
    leaves: Vec<Vec<u8>>,
}

impl MerkleTree {
    /// The digests of the leaves, in order.
    pub closed spec fn leaf_digests(&self) -> Seq<Seq<u8>> {
        digests(self.leaves@)
    }

    /// The stored root.
    pub closed spec fn root_spec(&self) -> Seq<u8> {
        self.root@
    }

    /// The tree holds at least one leaf and its root is the one they give.
    pub closed spec fn wf(&self) -> bool {
        &&& self.leaves@.len() > 0
        &&& self.root@ == root_of(self.leaf_digests())
    }

    /// Builds the tree over `data`, hashing each item into a leaf.
    pub fn new(data: &[&str]) -> (r: Result<MerkleTree, MerkleError>)
        ensures
            data@.len() == 0 <==> r is Err,
            r is Err ==> r == Err::<MerkleTree, MerkleError>(MerkleError::EmptyInput),
            r matches Ok(t) ==> t.wf() && t.leaf_digests() == data@.map_values(
                |s: &str| leaf_hash_spec(s.spec_bytes()),
            ) && t.root_spec() == root_of(t.leaf_digests()),
    {
        if data.len() == 0 {
            return Err(MerkleError::EmptyInput);
        }
        let mut leaves: Vec<Vec<u8>> = Vec::new();
        let mut i: usize = 0;
        while i < data.len()
            invariant
                0 <= i <= data@.len(),
                leaves@.len() == i,
                forall|k: int| 0 <= k < i ==> #[trigger] leaves@[k]@ == leaf_hash_spec(data@[k].spec_bytes()),
            decreases data@.len() - i,
        {
            leaves.push(Self::hash_leaf(data[i]));
            i = i + 1;
        }
        assert(digests(leaves@) =~= data@.map_values(|s: &str| leaf_hash_spec(s.spec_bytes())));
        let root = Self::find_root(leaves.as_slice());
        Ok(MerkleTree { root, leaves })
    }

    /// The root over a non-empty sequence of leaf digests.
    pub fn find_root(leaves: &[Vec<u8>]) -> (r: Vec<u8>)
        requires
            leaves@.len() > 0,
        ensures
            r@ == root_of(digests(leaves@)),
            leaves@.len() >= 2 ==> r@.len() == DIGEST_LEN,
    {
        let mut current_level = copy_level(leaves);
        while current_level.len() > 1
            invariant
                current_level@.len() > 0,
                leaves@.len() >= 2 ==> current_level@.len() >= 2 || current_level@[0]@.len() == DIGEST_LEN,
                root_of(digests(current_level@)) == root_of(digests(leaves@)),
            decreases current_level@.len(),
        {
            current_level = Self::hash_level(current_level.as_slice());
        }
        let root = copy_bytes(current_level[0].as_slice());
        root
    }

    /// The digest of an item: SHA-256 of its UTF-8 bytes.
    pub fn hash_leaf(leaf: &str) -> (r: Vec<u8>)
        ensures
            r@ == leaf_hash_spec(leaf.spec_bytes()),
            r@.len() == DIGEST_LEN,
    {
        crate::hashing::leaf_hash(leaf.as_bytes())
    }

    /// The digest of an inner node over `left` and `right`.
    pub fn hash_pair(left: &[u8], right: &[u8]) -> (r: Vec<u8>)
        ensures
            r@ == pair_hash_spec(left@, right@),
            r@.len() == DIGEST_LEN,
    {
        pair_hash(left, right)
    }

    /// The level above `level`.
    pub fn hash_level(level: &[Vec<u8>]) -> (r: Vec<Vec<u8>>)
        ensures
            r@.len() == (level@.len() + 1) / 2,
            digests(r@) == level_up(digests(level@)),
            level@.len() >= 2 ==> r@[0]@.len() == DIGEST_LEN,
    {
        let ghost lv = digests(level@);
        let mut next: Vec<Vec<u8>> = Vec::new();
        let mut i: usize = 0;
        while i < level.len()
            invariant
                lv == digests(level@),
                lv.len() == level@.len(),
                0 <= i <= level@.len(),
                i % 2 == 0 || i == level@.len(),
                next@.len() == (i + 1) / 2,
                forall|k: int| 0 <= k < next@.len() ==> #[trigger] next@[k]@ == parent_node(lv, k),
                level@.len() >= 2 && i > 0 ==> next@[0]@.len() == DIGEST_LEN,
            decreases level@.len() - i,
        {
            if i + 1 < level.len() {
                next.push(Self::hash_pair(level[i].as_slice(), level[i + 1].as_slice()));
                i = i + 2;
            } else {
                next.push(copy_bytes(level[i].as_slice()));
                i = i + 1;
            }
        }
        assert(digests(next@) =~= level_up(lv));
        next
    }

    /// The stored root.
    pub fn root(&self) -> (r: &Vec<u8>)
        ensures
            r@ == self.root_spec(),
    {
        &self.root
    }

    /// The inclusion proof of the leaf at `leaf_index`.
    pub fn generate_proof(&self, leaf_index: usize) -> (r: Result<Vec<ProofStep>, MerkleError>)
        requires
            self.wf(),
        ensures
            leaf_index >= self.leaf_digests().len() <==> r is Err,
            r is Err ==> r == Err::<Vec<ProofStep>, MerkleError>(MerkleError::IndexOutOfRange),
            r matches Ok(p) ==> proof_view(p@) == proof_of(self.leaf_digests(), leaf_index as int),
    {
        if leaf_index >= self.leaves.len() {
            return Err(MerkleError::IndexOutOfRange);
        }
        let mut proof: Vec<ProofStep> = Vec::new();
        let mut current_level = copy_level(self.leaves.as_slice());
        let mut current_index = leaf_index;
        while current_level.len() > 1
            invariant
                current_level@.len() > 0,
                current_index < current_level@.len(),
                proof_view(proof@) + proof_of(digests(current_level@), current_index as int)
                    == proof_of(self.leaf_digests(), leaf_index as int),
            decreases current_level@.len(),
        {
            let ghost old_proof = proof_view(proof@);
            let ghost lv = digests(current_level@);
            let sibling = if current_index % 2 == 0 { current_index + 1 } else { current_index - 1 };
            if sibling < current_level.len() {
                let d = copy_bytes(current_level[sibling].as_slice());
                proof.push((d, current_index % 2 == 0));
                proof {
                    assert(proof_view(proof@) =~= old_proof + seq![(lv[sibling as int], current_index % 2 == 0)]);
                }
            }
            current_index = current_index / 2;
            current_level = Self::hash_level(current_level.as_slice());
            proof {
                assert(proof_view(proof@) + proof_of(digests(current_level@), current_index as int)
                    =~= proof_of(self.leaf_digests(), leaf_index as int));
            }
        }
        assert(proof_view(proof@) =~= proof_view(proof@) + Seq::<(Seq<u8>, bool)>::empty());
        Ok(proof)
    }

    /// Whether `proof` leads from `leaf` to `root`.
    pub fn verify_proof(root: &[u8], leaf: &[u8], proof: &[ProofStep]) -> (r: bool)
        ensures
            r == (fold_proof(leaf@, proof_view(proof@)) == root@),
    {
        let ghost pv = proof_view(proof@);
        let mut current_hash = copy_bytes(leaf);
        let mut i: usize = 0;
        assert(pv.subrange(0, pv.len() as int) =~= pv);
        while i < proof.len()
            invariant
                pv == proof_view(proof@),
                0 <= i <= proof@.len(),
                fold_proof(current_hash@, pv.subrange(i as int, pv.len() as int))
                    == fold_proof(leaf@, pv),
            decreases proof@.len() - i,
        {
            let ghost before = current_hash@;
            let (sibling, is_left) = (&proof[i].0, proof[i].1);
            current_hash = if is_left {
                Self::hash_pair(current_hash.as_slice(), sibling.as_slice())
            } else {
                Self::hash_pair(sibling.as_slice(), current_hash.as_slice())
            };
            proof {
                let tail = pv.subrange(i as int, pv.len() as int);
                assert(tail[0] == pv[i as int]);
                assert(tail.drop_first() =~= pv.subrange(i + 1, pv.len() as int));
                assert(current_hash@ == apply_step(before, tail[0]));
            }
            i = i + 1;
        }
        assert(pv.subrange(i as int, pv.len() as int) =~= Seq::<(Seq<u8>, bool)>::empty());
        bytes_equal(current_hash.as_slice(), root)
    }
}

/// A copy of a level of digests.
fn copy_level(level: &[Vec<u8>]) -> (r: Vec<Vec<u8>>)
    ensures
        r@.len() == level@.len(),
        digests(r@) == digests(level@),
{
    let mut out: Vec<Vec<u8>> = Vec::new();
    let mut i: usize = 0;
    while i < level.len()
        invariant
            0 <= i <= level@.len(),
            out@.len() == i,
            forall|k: int| 0 <= k < i ==> #[trigger] out@[k]@ == level@[k]@,
        decreases level@.len() - i,
    {
        out.push(copy_bytes(level[i].as_slice()));
        i = i + 1;
    }
    assert(digests(out@) =~= digests(level@));
    out
}

/// Following the proof of any node of a non-empty level leads to the root
/// of that level.
pub proof fn lemma_proof_of_reaches_root(level: Seq<Seq<u8>>, index: int)
    requires
        0 <= index < level.len(),
    ensures
        fold_proof(level[index], proof_of(level, index)) == root_of(level),
    decreases level.len(),
{
    if level.len() > 1 {
        let up = level_up(level);
        let sibling = if index % 2 == 0 { index + 1 } else { index - 1 };
        let rest = proof_of(up, index / 2);
        lemma_proof_of_reaches_root(up, index / 2);
        if sibling < level.len() {
            let step = (level[sibling], index % 2 == 0);
            let p = seq![step] + rest;
            assert(p[0] == step);
            assert(p.drop_first() =~= rest);
            assert(apply_step(level[index], step) == up[index / 2]);
        } else {
            assert(up[index / 2] == level[index]);
        }
    }
}

/// The root of a tree is a function of its leaf digests alone: two trees
/// over the same leaves have the same root.
pub proof fn lemma_root_deterministic(a: MerkleTree, b: MerkleTree)
    requires
        a.wf(),
        b.wf(),
        a.leaf_digests() == b.leaf_digests(),
    ensures
        a.root_spec() == b.root_spec(),
{
}

/// The proof generated for any leaf of a tree verifies that leaf's digest
/// against the tree's root.
pub proof fn lemma_generated_proof_verifies(t: MerkleTree, leaf_index: int)
    requires
        t.wf(),
        0 <= leaf_index < t.leaf_digests().len(),
    ensures
        fold_proof(t.leaf_digests()[leaf_index], proof_of(t.leaf_digests(), leaf_index))
            == t.root_spec(),
{
    lemma_proof_of_reaches_root(t.leaf_digests(), leaf_index);
}

/// The bytes hashed by one step of proof verification.
pub open spec fn step_input(current: Seq<u8>, step: (Seq<u8>, bool)) -> Seq<u8> {
    if step.1 {
        current + step.0
    } else {
        step.0 + current
    }
}

/// The pair of inputs hashed at the first step where one proof, followed
/// from `a` and from `b`, reaches the same digest.
pub open spec fn fold_collision(a: Seq<u8>, b: Seq<u8>, proof: Seq<(Seq<u8>, bool)>) -> (Seq<u8>, Seq<u8>)
    decreases proof.len(),
{
    if proof.len() == 0 {
        (a, b)
    } else if apply_step(a, proof[0]) == apply_step(b, proof[0]) {
        (step_input(a, proof[0]), step_input(b, proof[0]))
    } else {
        fold_collision(apply_step(a, proof[0]), apply_step(b, proof[0]), proof.drop_first())
    }
}

/// The pair of inputs hashed at the first step where a proof and a copy of
/// it changed at step `k`, both followed from `leaf`, reach the same digest.
pub open spec fn tampered_collision(
    leaf: Seq<u8>,
    proof: Seq<(Seq<u8>, bool)>,
    tampered: Seq<(Seq<u8>, bool)>,
    k: int,
) -> (Seq<u8>, Seq<u8>)
    decreases k,
{
    if k > 0 {
        tampered_collision(apply_step(leaf, proof[0]), proof.drop_first(), tampered.drop_first(), k - 1)
    } else if apply_step(leaf, proof[0]) == apply_step(leaf, tampered[0]) {
        (step_input(leaf, proof[0]), step_input(leaf, tampered[0]))
    } else {
        fold_collision(apply_step(leaf, proof[0]), apply_step(leaf, tampered[0]), proof.drop_first())
    }
}

/// One proof leads two different starting digests to the same digest only
/// through a SHA-256 collision, which `fold_collision` names.
pub proof fn lemma_fold_distinct_starts(a: Seq<u8>, b: Seq<u8>, proof: Seq<(Seq<u8>, bool)>)
    requires
        a != b,
        fold_proof(a, proof) == fold_proof(b, proof),
    ensures
        is_collision(fold_collision(a, b, proof)),
    decreases proof.len(),
{
    if proof.len() > 0 {
        let step = proof[0];
        let next_a = apply_step(a, step);
        let next_b = apply_step(b, step);
        if next_a == next_b {
            if step.1 {
                lemma_pair_left_collides(a, b, step.0);
            } else {
                lemma_pair_right_collides(step.0, a, b);
            }
        } else {
            lemma_fold_distinct_starts(next_a, next_b, proof.drop_first());
        }
    }
}

/// A proof that verifies one leaf digest against a root verifies no other
/// leaf digest against it, unless SHA-256 has a collision, which
/// `fold_collision` names.
pub proof fn lemma_other_leaf_fails(
    root: Seq<u8>,
    leaf: Seq<u8>,
    other: Seq<u8>,
    proof: Seq<(Seq<u8>, bool)>,
)
    requires
        fold_proof(leaf, proof) == root,
        other != leaf,
    ensures
        fold_proof(other, proof) == root ==> is_collision(fold_collision(leaf, other, proof)),
{
    if fold_proof(other, proof) == root {
        lemma_fold_distinct_starts(leaf, other, proof);
    }
}

/// Changing the sibling digest of any one step of a proof that verifies a
/// leaf against a root makes it fail, unless SHA-256 has a collision, which
/// `tampered_collision` names.
pub proof fn lemma_tampered_proof_fails(
    root: Seq<u8>,
    leaf: Seq<u8>,
    proof: Seq<(Seq<u8>, bool)>,
    tampered: Seq<(Seq<u8>, bool)>,
    k: int,
)
    requires
        fold_proof(leaf, proof) == root,
        tampered.len() == proof.len(),
        0 <= k < proof.len(),
        tampered[k].0 != proof[k].0,
        tampered[k].1 == proof[k].1,
        forall|j: int| 0 <= j < proof.len() && j != k ==> tampered[j] == proof[j],
    ensures
        fold_proof(leaf, tampered) == root ==> is_collision(tampered_collision(leaf, proof, tampered, k)),
    decreases k,
{
    if fold_proof(leaf, tampered) == root {
        let step = proof[0];
        let other = tampered[0];
        let next = apply_step(leaf, step);
        let next_other = apply_step(leaf, other);
        if k == 0 {
            assert(tampered.drop_first() =~= proof.drop_first());
            if next == next_other {
                if step.1 {
                    lemma_pair_right_collides(leaf, step.0, other.0);
                } else {
                    lemma_pair_left_collides(step.0, other.0, leaf);
                }
            } else {
                lemma_fold_distinct_starts(next, next_other, proof.drop_first());
            }
        } else {
            assert(other == step);
            lemma_tampered_proof_fails(root, next, proof.drop_first(), tampered.drop_first(), k - 1);
        }
    }
}

} // verus!
