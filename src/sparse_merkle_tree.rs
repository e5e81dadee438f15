//! A fixed-depth sparse Merkle tree keyed by 16-byte keys.
//!
//! The tree keeps the digests of empty subtrees of every height, and a single
//! root. An insert recomputes the root as if its key were the only occupied
//! leaf of an otherwise empty tree: earlier inserts are not kept. Proofs are
//! therefore the empty-subtree digests along the path, whatever the key.

use vstd::prelude::*;

use crate::hashing::{
    bytes_equal, copy_bytes, lemma_pair_left_collides, lemma_pair_right_collides, leaf_hash,
    leaf_hash_spec, pair_hash, pair_hash_spec, is_collision, sha256_fixed_length, sha256_of, DIGEST_LEN,
};
use crate::merkle_tree::digests;

verus! {

/// Number of levels between a leaf and the root.
pub const TREE_DEPTH: usize = 128;

/// Number of bytes in a key: one bit of path for each level.
pub const KEY_LEN: usize = 16;

/// The contents of an empty leaf: 32 zero bytes.
pub open spec fn zero_block() -> Seq<u8> {
    Seq::new(DIGEST_LEN as nat, |i: int| 0u8)
}

/// The digest that stands for an empty leaf: the leaf digest of 32 zero
/// bytes.
pub open spec fn empty_leaf() -> Seq<u8> {
    leaf_hash_spec(zero_block())
}

/// The digest of an empty subtree whose root is at `height` (0 is the root of
/// the tree, `TREE_DEPTH` a leaf).
pub open spec fn default_node(height: int) -> Seq<u8>
    decreases TREE_DEPTH - height,
{
    if height >= TREE_DEPTH {
        empty_leaf()
    } else {
        pair_hash_spec(default_node(height + 1), default_node(height + 1))
    }
}

/// Whether the path of `key` turns right below the node at `level`: bit
/// `level % 8` of byte `level / 8` of the key.
pub open spec fn key_bit(key: Seq<u8>, level: int) -> bool {
    (key[level / 8] >> ((level % 8) as u8)) & 1u8 == 1u8
}

/// The node above `node` at `level` on the path of `key`, with `sibling`
/// on the other side.
pub open spec fn path_step(key: Seq<u8>, level: int, node: Seq<u8>, sibling: Seq<u8>) -> Seq<u8> {
    if key_bit(key, level) {
        pair_hash_spec(sibling, node)
    } else {
        pair_hash_spec(node, sibling)
    }
}

/// The digest reached from `node`, standing just below `level`, by climbing
/// the path of `key` to the root; the sibling used at level `i` is
/// `siblings[TREE_DEPTH - 1 - i]`.
pub open spec fn climb(key: Seq<u8>, node: Seq<u8>, level: int, siblings: Seq<Seq<u8>>) -> Seq<u8>
    decreases level,
{
    if level <= 0 {
        node
    } else {
        climb(
            key,
            path_step(key, level - 1, node, siblings[TREE_DEPTH - level]),
            level - 1,
            siblings,
        )
    }
}

/// The proof that the tree hands out for every key: the empty-subtree
/// digests from the leaf's sibling up to the root's children.
pub open spec fn default_proof() -> Seq<Seq<u8>> {
    Seq::new(TREE_DEPTH as nat, |k: int| default_node(TREE_DEPTH - k))
}

/// The root of a tree whose only occupied leaf is `value` under `key`.
pub open spec fn insert_root(key: Seq<u8>, value: Seq<u8>) -> Seq<u8> {
    climb(key, leaf_hash_spec(value), TREE_DEPTH as int, default_proof())
}

/// The digest a verification starts from: the leaf of `value`, or the empty
/// leaf when there is no value.
pub open spec fn start_digest(value: Option<&[u8]>) -> Seq<u8> {
    match value {
        Some(v) => leaf_hash_spec(v@),
        None => default_node(TREE_DEPTH as int),
    }
}

/// A sparse Merkle tree of depth `TREE_DEPTH`.
pub struct SparseMerkleTree {
    root: Vec<u8>,
    default_nodes: Vec<Vec<u8>>,
}

impl SparseMerkleTree {
    /// The stored root.
    pub closed spec fn root_spec(&self) -> Seq<u8> {
        self.root@
    }

    /// The empty-subtree table holds the digest of an empty subtree of each
    /// height.
    pub closed spec fn wf(&self) -> bool {
        &&& self.default_nodes@.len() == TREE_DEPTH + 1
        &&& forall|h: int| 0 <= h <= TREE_DEPTH ==> #[trigger] self.default_nodes@[h]@ == default_node(h)
    }

    /// Whether `proof` leads from `start` along the path of `key` to the root.
    pub open spec fn proof_holds(&self, key: Seq<u8>, start: Seq<u8>, proof: Seq<Seq<u8>>) -> bool {
        proof.len() >= TREE_DEPTH && climb(key, start, TREE_DEPTH as int, proof) == self.root_spec()
    }

    /// An empty tree: its root is the digest of an empty tree.
    pub fn new() -> (r: SparseMerkleTree)
        ensures
            r.wf(),
            r.root_spec() == default_node(0),
    {
        let zeros = zero_block_bytes();
        let empty = leaf_hash(zeros.as_slice());
        let mut default_nodes: Vec<Vec<u8>> = Vec::new();
        let mut k: usize = 0;
        while k <= TREE_DEPTH
            invariant
                k <= TREE_DEPTH + 1,
                empty@ == empty_leaf(),
                default_nodes@.len() == k,
                forall|h: int| 0 <= h < k ==> #[trigger] default_nodes@[h]@ == empty_leaf(),
            decreases TREE_DEPTH + 1 - k,
        {
            default_nodes.push(copy_bytes(empty.as_slice()));
            k = k + 1;
        }
        let mut i: usize = TREE_DEPTH;
        while i > 0
            invariant
                i <= TREE_DEPTH,
                default_nodes@.len() == TREE_DEPTH + 1,
                forall|h: int| i <= h <= TREE_DEPTH ==> #[trigger] default_nodes@[h]@ == default_node(h),
            decreases i,
        {
            i = i - 1;
            let node = pair_hash(default_nodes[i + 1].as_slice(), default_nodes[i + 1].as_slice());
            default_nodes[i] = node;
        }
        let root = copy_bytes(default_nodes[0].as_slice());
        SparseMerkleTree { root, default_nodes }
    }

    /// The stored root.
    pub fn root(&self) -> (r: &Vec<u8>)
        ensures
            r@ == self.root_spec(),
    {
        &self.root
    }

    /// Sets the root to that of a tree whose only occupied leaf is `value`
    /// under `key`.
    pub fn insert(&mut self, key: &[u8; 16], value: &[u8])
        requires
            old(self).wf(),
        ensures
            final(self).wf(),
            final(self).root_spec() == insert_root(key@, value@),
    {
        let leaf = leaf_hash(value);
        let root = self.climb_path(key, leaf, self.default_nodes_as_proof().as_slice());
        self.root = root;
    }

    /// The proof of a key: the empty-subtree digests along its path, from the
    /// leaf's sibling up, which are the same for every key.
    pub fn generate_proof(&self, _key: &[u8; 16]) -> (r: Vec<Vec<u8>>)
        requires
            self.wf(),
        ensures
            digests(r@) == default_proof(),
    {
        self.default_nodes_as_proof()
    }

    /// Whether `proof` leads from `value`'s leaf (or the empty leaf, for
    /// `None`) along the path of `key` to the root. A proof of fewer than
    /// `TREE_DEPTH` digests leads nowhere.
    pub fn verify_proof(&self, key: &[u8; 16], value: Option<&[u8]>, proof: &[Vec<u8>]) -> (r: bool)
        requires
            self.wf(),
        ensures
            r == self.proof_holds(key@, start_digest(value), digests(proof@)),
    {
        if proof.len() < TREE_DEPTH {
            return false;
        }
        let start = match value {
            Some(v) => leaf_hash(v),
            None => copy_bytes(self.default_nodes[TREE_DEPTH].as_slice()),
        };
        let reached = self.climb_path(key, start, proof);
        bytes_equal(reached.as_slice(), self.root.as_slice())
    }

    /// The empty-subtree digests in proof order.
    fn default_nodes_as_proof(&self) -> (r: Vec<Vec<u8>>)
        requires
            self.wf(),
        ensures
            r@.len() == TREE_DEPTH,
            digests(r@) == default_proof(),
    {
        let mut proof: Vec<Vec<u8>> = Vec::new();
        let mut k: usize = 0;
        while k < TREE_DEPTH
            invariant
                self.wf(),
                k <= TREE_DEPTH,
                proof@.len() == k,
                forall|j: int| 0 <= j < k ==> #[trigger] proof@[j]@ == default_node(TREE_DEPTH - j),
            decreases TREE_DEPTH - k,
        {
            proof.push(copy_bytes(self.default_nodes[TREE_DEPTH - k].as_slice()));
            k = k + 1;
        }
        assert(digests(proof@) =~= default_proof());
        proof
    }

    /// Climbs the path of `key` from `start` to the root, taking the sibling
    /// at each level from `siblings`.
    fn climb_path(&self, key: &[u8; 16], start: Vec<u8>, siblings: &[Vec<u8>]) -> (r: Vec<u8>)
        requires
            siblings@.len() >= TREE_DEPTH,
        ensures
            r@ == climb(key@, start@, TREE_DEPTH as int, digests(siblings@)),
    {
        let ghost sibs = digests(siblings@);
        let mut current = start;
        let mut i: usize = TREE_DEPTH;
        while i > 0
            invariant
                sibs == digests(siblings@),
                siblings@.len() >= TREE_DEPTH,
                key@.len() == KEY_LEN,
                i <= TREE_DEPTH,
                climb(key@, current@, i as int, sibs) == climb(key@, start@, TREE_DEPTH as int, sibs),
            decreases i,
        {
            i = i - 1;
            let sibling = siblings[TREE_DEPTH - 1 - i].as_slice();
            let right = (key[i / 8] >> ((i % 8) as u8)) & 1u8 == 1u8;
            assert(right == key_bit(key@, i as int));
            current = if right {
                pair_hash(sibling, current.as_slice())
            } else {
                pair_hash(current.as_slice(), sibling)
            };
        }
        current
    }
}

/// The contents of an empty leaf: 32 zero bytes.
fn zero_block_bytes() -> (r: Vec<u8>)
    ensures
        r@ == zero_block(),
{
    let mut d: Vec<u8> = Vec::new();
    let mut k: usize = 0;
    while k < DIGEST_LEN
        invariant
            k <= DIGEST_LEN,
            d@.len() == k,
            forall|j: int| 0 <= j < k ==> #[trigger] d@[j] == 0u8,
        decreases DIGEST_LEN - k,
    {
        d.push(0u8);
        k = k + 1;
    }
    assert(d@ =~= zero_block());
    d
}

/// After an insert of `value` under `key`, the proof that the tree hands out
/// for `key` verifies `value` under `key`.
pub proof fn lemma_latest_insert_verifies(t: SparseMerkleTree, key: Seq<u8>, value: Seq<u8>)
    requires
        t.wf(),
        t.root_spec() == insert_root(key, value),
    ensures
        t.proof_holds(key, leaf_hash_spec(value), default_proof()),
{
}

/// Climbing any key's path from the empty subtree at `level` with the
/// empty-subtree digests as siblings reaches the empty tree's root.
pub proof fn lemma_empty_climb(key: Seq<u8>, level: int)
    requires
        0 <= level <= TREE_DEPTH,
    ensures
        climb(key, default_node(level), level, default_proof()) == default_node(0),
    decreases level,
{
    if level > 0 {
        assert(default_proof()[TREE_DEPTH - level] == default_node(level));
        assert(path_step(key, level - 1, default_node(level), default_node(level))
            == default_node(level - 1));
        lemma_empty_climb(key, level - 1);
    }
}

/// The bytes hashed at `level` on the path of `key`, climbing from `node`
/// with `sibling` on the other side.
pub open spec fn path_input(key: Seq<u8>, level: int, node: Seq<u8>, sibling: Seq<u8>) -> Seq<u8> {
    if key_bit(key, level) {
        sibling + node
    } else {
        node + sibling
    }
}

/// The pair of inputs hashed at the first level where climbing one key's
/// path from `a` and from `b`, with the same siblings, reaches one digest.
pub open spec fn climb_collision(
    key: Seq<u8>,
    a: Seq<u8>,
    b: Seq<u8>,
    level: int,
    siblings: Seq<Seq<u8>>,
) -> (Seq<u8>, Seq<u8>)
    decreases level,
{
    if level <= 0 {
        (a, b)
    } else {
        let sibling = siblings[TREE_DEPTH - level];
        let next_a = path_step(key, level - 1, a, sibling);
        let next_b = path_step(key, level - 1, b, sibling);
        if next_a == next_b {
            (path_input(key, level - 1, a, sibling), path_input(key, level - 1, b, sibling))
        } else {
            climb_collision(key, next_a, next_b, level - 1, siblings)
        }
    }
}

/// Along one key's path with the same siblings, two different starting
/// digests reach the same root only through a SHA-256 collision, which
/// `climb_collision` names.
pub proof fn lemma_climb_distinct_starts(
    key: Seq<u8>,
    a: Seq<u8>,
    b: Seq<u8>,
    level: int,
    siblings: Seq<Seq<u8>>,
)
    requires
        a != b,
        climb(key, a, level, siblings) == climb(key, b, level, siblings),
    ensures
        is_collision(climb_collision(key, a, b, level, siblings)),
    decreases level,
{
    if level > 0 {
        let sibling = siblings[TREE_DEPTH - level];
        let next_a = path_step(key, level - 1, a, sibling);
        let next_b = path_step(key, level - 1, b, sibling);
        if next_a == next_b {
            if key_bit(key, level - 1) {
                lemma_pair_right_collides(sibling, a, b);
            } else {
                lemma_pair_left_collides(a, b, sibling);
            }
        } else {
            lemma_climb_distinct_starts(key, next_a, next_b, level - 1, siblings);
        }
    }
}

/// An insert moves the root away from the empty tree's root, unless the
/// value is the empty leaf's 32 zero bytes, or SHA-256 has a collision: with
/// those zero bytes, or the one that `climb_collision` names.
pub proof fn lemma_insert_changes_root(key: Seq<u8>, value: Seq<u8>)
    ensures
        insert_root(key, value) == default_node(0) ==> value == zero_block() || is_collision(
            (value, zero_block()),
        ) || is_collision(
            climb_collision(
                key,
                leaf_hash_spec(value),
                default_node(TREE_DEPTH as int),
                TREE_DEPTH as int,
                default_proof(),
            ),
        ),
{
    if insert_root(key, value) == default_node(0) && leaf_hash_spec(value) != empty_leaf() {
        lemma_empty_climb(key, TREE_DEPTH as int);
        lemma_climb_distinct_starts(
            key,
            leaf_hash_spec(value),
            default_node(TREE_DEPTH as int),
            TREE_DEPTH as int,
            default_proof(),
        );
    }
}

/// After an insert of `value` under `key`, the proof of `key` verifies no
/// other value under `key`, nor the absence of a value, unless SHA-256 has a
/// collision, which the clauses name (or, for the absence, the value is the
/// empty leaf's 32 zero bytes).
pub proof fn lemma_altered_value_fails(t: SparseMerkleTree, key: Seq<u8>, value: Seq<u8>, other: Seq<u8>)
    requires
        t.wf(),
        t.root_spec() == insert_root(key, value),
        other != value,
    ensures
        t.proof_holds(key, leaf_hash_spec(other), default_proof()) ==> is_collision((value, other))
            || is_collision(
            climb_collision(
                key,
                leaf_hash_spec(value),
                leaf_hash_spec(other),
                TREE_DEPTH as int,
                default_proof(),
            ),
        ),
        t.proof_holds(key, default_node(TREE_DEPTH as int), default_proof()) ==> value
            == zero_block() || is_collision((value, zero_block())) || is_collision(
            climb_collision(
                key,
                leaf_hash_spec(value),
                default_node(TREE_DEPTH as int),
                TREE_DEPTH as int,
                default_proof(),
            ),
        ),
{
    let d = default_proof();
    if t.proof_holds(key, leaf_hash_spec(other), d) && leaf_hash_spec(other) != leaf_hash_spec(value) {
        lemma_climb_distinct_starts(key, leaf_hash_spec(value), leaf_hash_spec(other), TREE_DEPTH as int, d);
    }
    if t.proof_holds(key, default_node(TREE_DEPTH as int), d) && leaf_hash_spec(value) != empty_leaf() {
        lemma_climb_distinct_starts(
            key,
            leaf_hash_spec(value),
            default_node(TREE_DEPTH as int),
            TREE_DEPTH as int,
            d,
        );
    }
}

/// Whether two keys' paths turn the same way at every level below `level`.
pub open spec fn paths_agree_below(k1: Seq<u8>, k2: Seq<u8>, level: int) -> bool {
    forall|i: int| 0 <= i < level ==> #[trigger] key_bit(k1, i) == key_bit(k2, i)
}

/// Two concatenations with first parts of one length are equal only part
/// by part.
proof fn lemma_concat_parts(x: Seq<u8>, y: Seq<u8>, u: Seq<u8>, w: Seq<u8>)
    requires
        x + y == u + w,
        x.len() == u.len(),
    ensures
        x == u,
        y == w,
{
    assert(x =~= (x + y).subrange(0, x.len() as int));
    assert(u =~= (u + w).subrange(0, u.len() as int));
    assert(y =~= (x + y).subrange(x.len() as int, (x + y).len() as int));
    assert(w =~= (u + w).subrange(u.len() as int, (u + w).len() as int));
}

/// A SHA-256 collision met when climbing the paths of two keys from `a`
/// and `b` at `level`, with the empty-subtree digests as siblings, where
/// they reach one root without the starts being equal along agreeing paths
/// or both the empty subtree's digest.
pub open spec fn two_key_collision(k1: Seq<u8>, k2: Seq<u8>, a: Seq<u8>, b: Seq<u8>, level: int) -> (
    Seq<u8>,
    Seq<u8>,
)
    decreases level,
{
    if level <= 0 {
        (a, b)
    } else {
        let sib = default_node(level);
        let in_a = path_input(k1, level - 1, a, sib);
        let in_b = path_input(k2, level - 1, b, sib);
        let both = sib + sib;
        let below = two_key_collision(k1, k2, sha256_of(in_a), sha256_of(in_b), level - 1);
        if is_collision(below) {
            below
        } else if is_collision((in_a, in_b)) {
            (in_a, in_b)
        } else if is_collision((in_a, both)) {
            (in_a, both)
        } else {
            (in_b, both)
        }
    }
}

/// Climbing the paths of two keys from `a` and `b` at `level`, with the
/// empty-subtree digests as siblings, reaches one root only if the two
/// starts are equal and the paths agree from `level` down, or both starts
/// are the empty subtree's digest, or SHA-256 has the collision that
/// `two_key_collision` names.
pub proof fn lemma_climb_two_keys(k1: Seq<u8>, k2: Seq<u8>, a: Seq<u8>, b: Seq<u8>, level: int)
    requires
        sha256_fixed_length(),
        a.len() == DIGEST_LEN,
        b.len() == DIGEST_LEN,
        0 <= level <= TREE_DEPTH,
        climb(k1, a, level, default_proof()) == climb(k2, b, level, default_proof()),
    ensures
        is_collision(two_key_collision(k1, k2, a, b, level)) || (a == b && paths_agree_below(
            k1,
            k2,
            level,
        )) || (a == default_node(level) && b == default_node(level)),
    decreases level,
{
    if level > 0 {
        let sib = default_node(level);
        assert(default_proof()[TREE_DEPTH - level] == sib);
        if level < TREE_DEPTH {
            assert(sib == sha256_of(default_node(level + 1) + default_node(level + 1)));
        } else {
            assert(sib == sha256_of(zero_block()));
        }
        assert(sib.len() == DIGEST_LEN);
        let in_a = path_input(k1, level - 1, a, sib);
        let in_b = path_input(k2, level - 1, b, sib);
        let both = sib + sib;
        let na = sha256_of(in_a);
        let nb = sha256_of(in_b);
        assert(na == path_step(k1, level - 1, a, sib));
        assert(nb == path_step(k2, level - 1, b, sib));
        assert(na.len() == DIGEST_LEN);
        assert(nb.len() == DIGEST_LEN);
        lemma_climb_two_keys(k1, k2, na, nb, level - 1);
        let below = two_key_collision(k1, k2, na, nb, level - 1);
        if !is_collision(below) && !is_collision((in_a, in_b)) && !is_collision((in_a, both))
            && !is_collision((in_b, both)) {
            if na == nb && paths_agree_below(k1, k2, level - 1) {
                assert(in_a == in_b);
                if key_bit(k1, level - 1) == key_bit(k2, level - 1) {
                    if key_bit(k1, level - 1) {
                        lemma_concat_parts(sib, a, sib, b);
                    } else {
                        lemma_concat_parts(a, sib, b, sib);
                    }
                    assert(paths_agree_below(k1, k2, level));
                } else if key_bit(k1, level - 1) {
                    lemma_concat_parts(sib, a, b, sib);
                } else {
                    lemma_concat_parts(a, sib, sib, b);
                }
            } else {
                assert(default_node(level - 1) == sha256_of(both));
                assert(in_a == both);
                assert(in_b == both);
                if key_bit(k1, level - 1) {
                    lemma_concat_parts(sib, a, sib, sib);
                } else {
                    lemma_concat_parts(a, sib, sib, sib);
                }
                if key_bit(k2, level - 1) {
                    lemma_concat_parts(sib, b, sib, sib);
                } else {
                    lemma_concat_parts(b, sib, sib, sib);
                }
            }
        }
    }
}

/// A byte is determined by its eight bits.
proof fn lemma_byte_from_bits(x: u8, y: u8)
    by (bit_vector)
    requires
        ((x >> 0u8) & 1u8 == 1u8) == ((y >> 0u8) & 1u8 == 1u8),
        ((x >> 1u8) & 1u8 == 1u8) == ((y >> 1u8) & 1u8 == 1u8),
        ((x >> 2u8) & 1u8 == 1u8) == ((y >> 2u8) & 1u8 == 1u8),
        ((x >> 3u8) & 1u8 == 1u8) == ((y >> 3u8) & 1u8 == 1u8),
        ((x >> 4u8) & 1u8 == 1u8) == ((y >> 4u8) & 1u8 == 1u8),
        ((x >> 5u8) & 1u8 == 1u8) == ((y >> 5u8) & 1u8 == 1u8),
        ((x >> 6u8) & 1u8 == 1u8) == ((y >> 6u8) & 1u8 == 1u8),
        ((x >> 7u8) & 1u8 == 1u8) == ((y >> 7u8) & 1u8 == 1u8),
    ensures
        x == y,
{
}

/// Two keys whose paths agree at every level are the same key.
pub proof fn lemma_path_determines_key(k1: Seq<u8>, k2: Seq<u8>)
    requires
        k1.len() == KEY_LEN,
        k2.len() == KEY_LEN,
        paths_agree_below(k1, k2, TREE_DEPTH as int),
    ensures
        k1 == k2,
{
    assert forall|j: int| 0 <= j < KEY_LEN implies k1[j] == k2[j] by {
        assert(key_bit(k1, 8 * j + 0) == key_bit(k2, 8 * j + 0));
        assert(key_bit(k1, 8 * j + 1) == key_bit(k2, 8 * j + 1));
        assert(key_bit(k1, 8 * j + 2) == key_bit(k2, 8 * j + 2));
        assert(key_bit(k1, 8 * j + 3) == key_bit(k2, 8 * j + 3));
        assert(key_bit(k1, 8 * j + 4) == key_bit(k2, 8 * j + 4));
        assert(key_bit(k1, 8 * j + 5) == key_bit(k2, 8 * j + 5));
        assert(key_bit(k1, 8 * j + 6) == key_bit(k2, 8 * j + 6));
        assert(key_bit(k1, 8 * j + 7) == key_bit(k2, 8 * j + 7));
        lemma_byte_from_bits(k1[j], k2[j]);
    }
    assert(k1 =~= k2);
}

/// After an insert of `value` under `key`, the proof of `key` does not verify
/// `value` under any other key, unless the value is the empty leaf's 32 zero
/// bytes, or SHA-256 has a collision (with those zero bytes, or the one that
/// `two_key_collision` names), or yields a digest of another length.
pub proof fn lemma_altered_key_fails(t: SparseMerkleTree, key: Seq<u8>, other: Seq<u8>, value: Seq<u8>)
    requires
        t.wf(),
        t.root_spec() == insert_root(key, value),
        key.len() == KEY_LEN,
        other.len() == KEY_LEN,
        other != key,
    ensures
        t.proof_holds(other, leaf_hash_spec(value), default_proof()) ==> !sha256_fixed_length()
            || value == zero_block() || is_collision((value, zero_block())) || is_collision(
            two_key_collision(
                key,
                other,
                leaf_hash_spec(value),
                leaf_hash_spec(value),
                TREE_DEPTH as int,
            ),
        ),
{
    if t.proof_holds(other, leaf_hash_spec(value), default_proof()) && sha256_fixed_length() {
        let leaf = leaf_hash_spec(value);
        assert(leaf.len() == DIGEST_LEN);
        lemma_climb_two_keys(key, other, leaf, leaf, TREE_DEPTH as int);
        if !is_collision(two_key_collision(key, other, leaf, leaf, TREE_DEPTH as int)) && leaf
            != empty_leaf() {
            lemma_path_determines_key(key, other);
        }
    }
}

} // verus!
