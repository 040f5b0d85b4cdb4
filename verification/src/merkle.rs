//! SHA-256 Merkle trees with domain-separated leaf (0x00) and node (0x01)
//! hashing, inclusion proofs and their verification.

use vstd::prelude::*;

verus! {

/// A 32-byte SHA-256 digest.
pub type Hash32 = [u8; 32];

/// The SHA-256 digest of a byte string.
pub uninterp spec fn sha256(data: Seq<u8>) -> Seq<u8>;

/// Computes SHA-256 of `data` with `sha2::Sha256::digest`.
/// Trusted: the returned array is the digest that the `sha2` crate computes
/// for exactly these bytes, named by `sha256`.
#[verifier::external_body]
pub(crate) fn sha256_digest(data: &[u8]) -> (out: Hash32)
    ensures
        out@ == sha256(data@),
{
    <sha2::Sha256 as sha2::Digest>::digest(data).into()
}

/// Leaf hash: SHA-256 over the domain byte 0x00 followed by the data.
pub open spec fn spec_hash_leaf(data: Seq<u8>) -> Seq<u8> {
    sha256(seq![0u8] + data)
}

/// Node hash: SHA-256 over the domain byte 0x01, the left and the right child.
pub open spec fn spec_hash_node(left: Seq<u8>, right: Seq<u8>) -> Seq<u8> {
    sha256(seq![1u8] + left + right)
}

/// Byte-wise equality of two digests.
pub fn hash_eq(a: &Hash32, b: &Hash32) -> (r: bool)
    ensures
        r == (a@ == b@),
{
    let mut i: usize = 0;
    while i < 32
        invariant
            0 <= i <= 32,
            a@.len() == 32,
            b@.len() == 32,
            forall|j: int| 0 <= j < i ==> a@[j] == b@[j],
        decreases 32 - i,
    {
        if a[i] != b[i] {
            return false;
        }
        i = i + 1;
    }
    assert(a@ =~= b@);
    true
}

fn push_all(buf: &mut Vec<u8>, data: &[u8])
    ensures
        final(buf)@ == old(buf)@ + data@,
{
    let mut i: usize = 0;
    while i < data.len()
        invariant
            0 <= i <= data@.len(),
            buf@ == old(buf)@ + data@.subrange(0, i as int),
        decreases data@.len() - i,
    {
        buf.push(data[i]);
        i = i + 1;
        assert(buf@ =~= old(buf)@ + data@.subrange(0, i as int));
    }
    assert(data@.subrange(0, data@.len() as int) =~= data@);
}


/// Digests as byte sequences.
pub open spec fn hashes_view(v: Seq<Hash32>) -> Seq<Seq<u8>> {
    v.map_values(|h: Hash32| h@)
}

/// A list of byte strings as byte sequences.
pub open spec fn leaf_bytes(v: Seq<Vec<u8>>) -> Seq<Seq<u8>> {
    v.map_values(|l: Vec<u8>| l@)
}

/// The hashes of the leaves of a tree built from `leaves`.
pub open spec fn leaf_level(leaves: Seq<Seq<u8>>) -> Seq<Seq<u8>> {
    leaves.map_values(|d: Seq<u8>| spec_hash_leaf(d))
}

/// The level above `level`: each pair of neighbours is hashed together, and a
/// last node without a partner is hashed with itself.
pub open spec fn next_level(level: Seq<Seq<u8>>) -> Seq<Seq<u8>> {
    Seq::new(
        ((level.len() + 1) / 2) as nat,
        |i: int|
            spec_hash_node(
                level[2 * i],
                if 2 * i + 1 < level.len() {
                    level[2 * i + 1]
                } else {
                    level[2 * i]
                },
            ),
    )
}

/// The root reached from `level` by building levels until one node is left.
pub open spec fn root_of_level(level: Seq<Seq<u8>>) -> Seq<u8>
    decreases level.len(),
{
    if level.len() <= 1 {
        level[0]
    } else {
        root_of_level(next_level(level))
    }
}

/// The Merkle root of a non-empty list of leaves.
pub open spec fn merkle_root(leaves: Seq<Seq<u8>>) -> Seq<u8> {
    root_of_level(leaf_level(leaves))
}

/// Index of the sibling of node `idx` in a level of `len` nodes; a last node
/// without a partner is its own sibling.
pub open spec fn sibling_of(len: int, idx: int) -> int {
    if idx % 2 == 1 {
        idx - 1
    } else if idx + 1 < len {
        idx + 1
    } else {
        idx
    }
}

/// The sibling hashes on the way from node `idx` of `level` to the root.
pub open spec fn auth_path(level: Seq<Seq<u8>>, idx: int) -> Seq<Seq<u8>>
    decreases level.len(),
{
    if level.len() <= 1 {
        seq![]
    } else {
        seq![level[sibling_of(level.len() as int, idx)]] + auth_path(next_level(level), idx / 2)
    }
}

/// For each level on the way to the root, whether the node is a right child.
pub open spec fn path_bits(level: Seq<Seq<u8>>, idx: int) -> Seq<bool>
    decreases level.len(),
{
    if level.len() <= 1 {
        seq![]
    } else {
        seq![idx % 2 == 1] + path_bits(next_level(level), idx / 2)
    }
}

/// Hashing `cur` up along a path: a set bit puts the sibling on the left.
/// Only as many steps are taken as the shorter of the two lists has entries.
pub open spec fn fold_path(cur: Seq<u8>, siblings: Seq<Seq<u8>>, bits: Seq<bool>) -> Seq<u8>
    decreases siblings.len(),
{
    if siblings.len() == 0 || bits.len() == 0 {
        cur
    } else {
        fold_path(
            if bits[0] {
                spec_hash_node(siblings[0], cur)
            } else {
                spec_hash_node(cur, siblings[0])
            },
            siblings.drop_first(),
            bits.drop_first(),
        )
    }
}

/// Whether a proof made of `siblings` and `bits` links `leaf` to `root`.
pub open spec fn spec_verify(
    root: Seq<u8>,
    leaf: Seq<u8>,
    siblings: Seq<Seq<u8>>,
    bits: Seq<bool>,
) -> bool {
    fold_path(spec_hash_leaf(leaf), siblings, bits) == root
}

/// Level `k + 1` is built from level `k`, which has more than one node.
pub open spec fn level_step(levels: Seq<Seq<Seq<u8>>>, k: int) -> bool {
    levels[k].len() > 1 && levels[k + 1] == next_level(levels[k])
}

/// A stack of levels that starts at `base` and ends at a single root node.
pub open spec fn levels_from(levels: Seq<Seq<Seq<u8>>>, base: Seq<Seq<u8>>) -> bool {
    &&& levels.len() >= 1
    &&& levels[0] == base
    &&& base.len() >= 1
    &&& forall|k: int| 0 <= k < levels.len() - 1 ==> #[trigger] level_step(levels, k)
    &&& levels[levels.len() - 1].len() == 1
}

/// The stored levels as byte sequences.
pub open spec fn stored_levels(levels: Seq<Vec<Hash32>>) -> Seq<Seq<Seq<u8>>> {
    levels.map_values(|l: Vec<Hash32>| hashes_view(l@))
}

/// Climbing from any stored level reaches the last one's single node.
proof fn lemma_root_from_level(levels: Seq<Seq<Seq<u8>>>, base: Seq<Seq<u8>>, k: int)
    requires
        levels_from(levels, base),
        0 <= k < levels.len(),
    ensures
        levels[k].len() >= 1,
        root_of_level(levels[k]) == levels[levels.len() - 1][0],
    decreases levels.len() - k,
{
    if k < levels.len() - 1 {
        assert(level_step(levels, k));
        lemma_root_from_level(levels, base, k + 1);
    }
}

/// A copy of a list of digests.
fn copy_hashes(v: &Vec<Hash32>) -> (r: Vec<Hash32>)
    ensures
        r@ == v@,
{
    let mut r: Vec<Hash32> = Vec::new();
    let mut i: usize = 0;
    while i < v.len()
        invariant
            0 <= i <= v@.len(),
            r@ == v@.subrange(0, i as int),
        decreases v@.len() - i,
    {
        r.push(v[i]);
        i = i + 1;
        assert(r@ =~= v@.subrange(0, i as int));
    }
    assert(v@.subrange(0, v@.len() as int) =~= v@);
    r
}

/// Merkle tree over SHA-256 with domain separation.
pub struct MerkleTree {
    root: Hash32,
    leaves: Vec<Hash32>,
    tree_levels: Vec<Vec<Hash32>>,
}

/// Inclusion proof: the sibling hashes along the path and, per level,
/// whether the proven node is the right child (its sibling on the left).
#[derive(Debug, Clone)]
pub struct MerkleProof {
    /// Sibling hashes along the authentication path
    pub siblings: Vec<Hash32>,
    /// Path bits: `true` when the sibling is on the left
    pub path_bits: Vec<bool>,
}

impl MerkleProof {
    /// The sibling hashes as byte sequences.
    pub open spec fn siblings_view(&self) -> Seq<Seq<u8>> {
        hashes_view(self.siblings@)
    }
}

impl MerkleTree {
    /// The hashes of the leaves.
    pub closed spec fn leaf_hashes(&self) -> Seq<Seq<u8>> {
        hashes_view(self.leaves@)
    }

    #[verifier::type_invariant]
    closed spec fn well_formed(&self) -> bool {
        let lv = stored_levels(self.tree_levels@);
        &&& levels_from(lv, hashes_view(self.leaves@))
        &&& self.root@ == lv[lv.len() - 1][0]
    }

    /// Hash a leaf with domain separator 0x00
    pub fn hash_leaf(data: &[u8]) -> (h: Hash32)
        ensures
            h@ == spec_hash_leaf(data@),
    {
        let mut buf: Vec<u8> = Vec::new();
        buf.push(0u8);
        push_all(&mut buf, data);
        assert(buf@ =~= seq![0u8] + data@);
        sha256_digest(buf.as_slice())
    }

    /// Hash an internal node with domain separator 0x01
    pub fn hash_node(left: &Hash32, right: &Hash32) -> (h: Hash32)
        ensures
            h@ == spec_hash_node(left@, right@),
    {
        let mut buf: Vec<u8> = Vec::new();
        buf.push(1u8);
        push_all(&mut buf, left.as_slice());
        push_all(&mut buf, right.as_slice());
        assert(buf@ =~= seq![1u8] + left@ + right@);
        sha256_digest(buf.as_slice())
    }

    /// Build the next level of the tree from the current level
    fn build_next_level(current_level: &Vec<Hash32>) -> (next: Vec<Hash32>)
        ensures
            hashes_view(next@) == next_level(hashes_view(current_level@)),
    {
        let ghost cur = hashes_view(current_level@);
        let len = current_level.len();
        let pairs = len / 2 + len % 2;
        let mut next: Vec<Hash32> = Vec::new();
        let mut j: usize = 0;
        while j < pairs
            invariant
                len == current_level@.len(),
                cur == hashes_view(current_level@),
                pairs == (len + 1) / 2,
                0 <= j <= pairs,
                next@.len() == j,
                forall|t: int| 0 <= t < j ==> #[trigger] next@[t]@ == next_level(cur)[t],
            decreases pairs - j,
        {
            let i = 2 * j;
            let h = if i + 1 < len {
                Self::hash_node(&current_level[i], &current_level[i + 1])
            } else {
                Self::hash_node(&current_level[i], &current_level[i])
            };
            next.push(h);
            j = j + 1;
        }
        assert(hashes_view(next@) =~= next_level(cur));
        next
    }

    /// Create a Merkle tree from leaf data
    pub fn from_leaves(leaves: Vec<Vec<u8>>) -> (tree: Self)
        requires
            leaves@.len() > 0,
        ensures
            tree.leaf_hashes() == leaf_level(leaf_bytes(leaves@)),
    {
        let ghost data = leaf_bytes(leaves@);
        let mut leaf_hashes: Vec<Hash32> = Vec::new();
        let mut i: usize = 0;
        while i < leaves.len()
            invariant
                0 <= i <= leaves@.len(),
                data == leaf_bytes(leaves@),
                leaf_hashes@.len() == i,
                forall|t: int| 0 <= t < i ==> #[trigger] leaf_hashes@[t]@ == leaf_level(data)[t],
            decreases leaves@.len() - i,
        {
            let h = Self::hash_leaf(leaves[i].as_slice());
            leaf_hashes.push(h);
            i = i + 1;
        }
        assert(hashes_view(leaf_hashes@) =~= leaf_level(data));
        let ghost base = hashes_view(leaf_hashes@);
        let mut tree_levels: Vec<Vec<Hash32>> = Vec::new();
        tree_levels.push(copy_hashes(&leaf_hashes));
        let mut current_level = copy_hashes(&leaf_hashes);
        while current_level.len() > 1
            invariant
                base.len() >= 1,
                tree_levels@.len() >= 1,
                stored_levels(tree_levels@)[0] == base,
                forall|k: int|
                    0 <= k < tree_levels@.len() - 1 ==> #[trigger] level_step(
                        stored_levels(tree_levels@),
                        k,
                    ),
                current_level@ == tree_levels@[tree_levels@.len() - 1]@,
                current_level@.len() >= 1,
            decreases current_level@.len(),
        {
            let ghost before = stored_levels(tree_levels@);
            let next_level = Self::build_next_level(&current_level);
            assert(hashes_view(next_level@).len() == next_level@.len());
            assert(hashes_view(current_level@).len() == current_level@.len());
            assert(next_level@.len() == (current_level@.len() + 1) / 2);
            tree_levels.push(copy_hashes(&next_level));
            let ghost after = stored_levels(tree_levels@);
            assert forall|k: int| 0 <= k < after.len() - 1 implies #[trigger] level_step(
                after,
                k,
            ) by {
                if k < before.len() - 1 {
                    assert(level_step(before, k));
                    assert(after[k] == before[k]);
                    assert(after[k + 1] == before[k + 1]);
                } else {
                    assert(after[k] == hashes_view(current_level@));
                }
            }
            current_level = next_level;
        }
        let root = current_level[0];
        let ghost lv = stored_levels(tree_levels@);
        assert(lv[lv.len() - 1] == hashes_view(current_level@));
        MerkleTree { root, leaves: leaf_hashes, tree_levels }
    }

    /// Get the Merkle root
    pub fn root(&self) -> (r: Hash32)
        ensures
            r@ == root_of_level(self.leaf_hashes()),
            self.leaf_hashes().len() >= 1,
    {
        proof {
            use_type_invariant(self);
            lemma_root_from_level(stored_levels(self.tree_levels@), self.leaf_hashes(), 0);
        }
        self.root
    }

    /// Get the leaf hashes
    pub fn leaves(&self) -> (r: Vec<Hash32>)
        ensures
            hashes_view(r@) == self.leaf_hashes(),
    {
        copy_hashes(&self.leaves)
    }

    /// Generate a Merkle proof for the leaf at the given index
    pub fn prove(&self, index: usize) -> (proof: MerkleProof)
        requires
            index < self.leaf_hashes().len(),
        ensures
            proof.siblings_view() == auth_path(self.leaf_hashes(), index as int),
            proof.path_bits@ == path_bits(self.leaf_hashes(), index as int),
    {
        proof {
            use_type_invariant(self);
        }
        let ghost lv = stored_levels(self.tree_levels@);
        let ghost base = self.leaf_hashes();
        let mut siblings: Vec<Hash32> = Vec::new();
        let mut bits: Vec<bool> = Vec::new();
        let mut current_index = index;
        let n_levels = self.tree_levels.len();
        let mut level_idx: usize = 0;
        while level_idx < n_levels - 1
            invariant
                lv == stored_levels(self.tree_levels@),
                levels_from(lv, base),
                n_levels == lv.len(),
                0 <= level_idx < n_levels,
                current_index < lv[level_idx as int].len(),
                hashes_view(siblings@) + auth_path(lv[level_idx as int], current_index as int)
                    == auth_path(base, index as int),
                bits@ + path_bits(lv[level_idx as int], current_index as int) == path_bits(
                    base,
                    index as int,
                ),
            decreases n_levels - level_idx,
        {
            let level = &self.tree_levels[level_idx];
            assert(level_step(lv, level_idx as int));
            assert(lv[level_idx as int] == hashes_view(level@));
            let ghost cur = lv[level_idx as int];
            let ghost sibs_before = hashes_view(siblings@);
            let ghost bits_before = bits@;
            let is_right_child = current_index % 2 == 1;
            bits.push(is_right_child);
            let sibling_index = if is_right_child {
                current_index - 1
            } else {
                if current_index == level.len() - 1 && level.len() % 2 == 1 {
                    current_index
                } else {
                    current_index + 1
                }
            };
            siblings.push(level[sibling_index]);
            assert(sibling_index == sibling_of(cur.len() as int, current_index as int));
            assert(hashes_view(siblings@) =~= sibs_before.push(cur[sibling_index as int]));
            assert(auth_path(cur, current_index as int) == seq![cur[sibling_index as int]]
                + auth_path(lv[level_idx + 1], current_index as int / 2));
            assert(path_bits(cur, current_index as int) == seq![is_right_child] + path_bits(
                lv[level_idx + 1],
                current_index as int / 2,
            ));
            assert(hashes_view(siblings@) + auth_path(lv[level_idx + 1], current_index as int / 2)
                =~= sibs_before + auth_path(cur, current_index as int));
            assert(bits@ + path_bits(lv[level_idx + 1], current_index as int / 2)
                =~= bits_before + path_bits(cur, current_index as int));
            current_index = current_index / 2;
            level_idx = level_idx + 1;
        }
        let ghost last = lv[level_idx as int];
        assert(auth_path(last, current_index as int) =~= Seq::<Seq<u8>>::empty());
        assert(path_bits(last, current_index as int) =~= Seq::<bool>::empty());
        assert(hashes_view(siblings@) =~= hashes_view(siblings@) + auth_path(
            last,
            current_index as int,
        ));
        assert(bits@ =~= bits@ + path_bits(last, current_index as int));
        MerkleProof { siblings, path_bits: bits }
    }
}

/// Verify a Merkle proof
pub fn verify(root: Hash32, leaf: &[u8], proof: MerkleProof) -> (valid: bool)
    ensures
        valid == spec_verify(root@, leaf@, proof.siblings_view(), proof.path_bits@),
{
    let mut current = MerkleTree::hash_leaf(leaf);
    let ghost sibs = proof.siblings_view();
    let ghost bits = proof.path_bits@;
    let n = if proof.siblings.len() < proof.path_bits.len() {
        proof.siblings.len()
    } else {
        proof.path_bits.len()
    };
    let mut i: usize = 0;
    assert(sibs.skip(0) =~= sibs);
    assert(bits.skip(0) =~= bits);
    while i < n
        invariant
            sibs == hashes_view(proof.siblings@),
            bits == proof.path_bits@,
            n <= proof.siblings@.len(),
            n <= proof.path_bits@.len(),
            n == proof.siblings@.len() || n == proof.path_bits@.len(),
            0 <= i <= n,
            fold_path(current@, sibs.skip(i as int), bits.skip(i as int)) == fold_path(
                spec_hash_leaf(leaf@),
                sibs,
                bits,
            ),
        decreases n - i,
    {
        let sibling = proof.siblings[i];
        let is_right_child = proof.path_bits[i];
        assert(sibs.skip(i as int).drop_first() =~= sibs.skip(i + 1));
        assert(bits.skip(i as int).drop_first() =~= bits.skip(i + 1));
        if is_right_child {
            current = MerkleTree::hash_node(&sibling, &current);
        } else {
            current = MerkleTree::hash_node(&current, &sibling);
        }
        i = i + 1;
    }
    assert(sibs.skip(i as int).len() == 0 || bits.skip(i as int).len() == 0);
    hash_eq(&current, &root)
}

/// Convenience function for hashing internal nodes
pub fn hash_internal(left: &Hash32, right: &Hash32) -> (h: Hash32)
    ensures
        h@ == spec_hash_node(left@, right@),
{
    MerkleTree::hash_node(left, right)
}

/// Convenience function for hashing leaves
pub fn hash_leaf(data: &[u8]) -> (h: Hash32)
    ensures
        h@ == spec_hash_leaf(data@),
{
    MerkleTree::hash_leaf(data)
}

/// Hashing up from node `idx` along its authentication path reaches the root
/// of the level.
pub proof fn lemma_auth_path_reaches_root(level: Seq<Seq<u8>>, idx: int)
    requires
        0 <= idx < level.len(),
    ensures
        fold_path(level[idx], auth_path(level, idx), path_bits(level, idx)) == root_of_level(
            level,
        ),
    decreases level.len(),
{
    if level.len() > 1 {
        let nl = next_level(level);
        lemma_auth_path_reaches_root(nl, idx / 2);
        let sibs = auth_path(level, idx);
        let bits = path_bits(level, idx);
        assert(sibs.drop_first() =~= auth_path(nl, idx / 2));
        assert(bits.drop_first() =~= path_bits(nl, idx / 2));
        if idx % 2 == 1 {
            assert(2 * (idx / 2) == idx - 1);
        } else {
            assert(2 * (idx / 2) == idx);
        }
    }
}

/// Completeness: for every non-empty list of leaves and every index, the
/// proof that the tree gives for that leaf verifies against the tree's root.
pub proof fn lemma_merkle_completeness(leaves: Seq<Seq<u8>>, i: int)
    requires
        0 <= i < leaves.len(),
    ensures
        spec_verify(
            merkle_root(leaves),
            leaves[i],
            auth_path(leaf_level(leaves), i),
            path_bits(leaf_level(leaves), i),
        ),
{
    lemma_auth_path_reaches_root(leaf_level(leaves), i);
}

/// Determinism: equal leaf lists give equal roots.
pub proof fn lemma_merkle_root_deterministic(a: Seq<Seq<u8>>, b: Seq<Seq<u8>>)
    requires
        a == b,
    ensures
        merkle_root(a) == merkle_root(b),
{
}

} // verus!
