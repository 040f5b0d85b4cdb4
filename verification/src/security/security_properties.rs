//! Checks of the security properties of one Merkle tree against its
//! leaves: collision resistance, binding, soundness, completeness and
//! domain separation.

use vstd::prelude::*;

use crate::merkle::{
    auth_path, hash_eq, hash_internal, hash_leaf, leaf_bytes, leaf_level, lemma_merkle_completeness,
    merkle_root, path_bits, root_of_level, spec_hash_leaf, spec_hash_node, spec_verify, verify,
    MerkleTree,
};
use crate::security::{copy_bytes, copy_leaves, root_of};

verus! {

/// `leaves` with a byte 1 appended to the first leaf.
pub open spec fn with_first_extended(leaves: Seq<Seq<u8>>) -> Seq<Seq<u8>> {
    leaves.update(0, leaves[0].push(1u8))
}

/// The bytes of `"modified_{i}"` for a one-digit `i`.
pub open spec fn modified_label(i: nat) -> Seq<u8> {
    seq![109u8, 111, 100, 105, 102, 105, 101, 100, 95] + seq![(48 + i) as u8]
}

/// The bytes of `"test_data"`.
pub open spec fn test_data() -> Seq<u8> {
    seq![116u8, 101, 115, 116, 95, 100, 97, 116, 97]
}

/// Every one of the first `min(len, 5)` leaves, replaced by its label,
/// changes the root away from `root`.
pub open spec fn binding_holds(root: Seq<u8>, leaves: Seq<Seq<u8>>) -> bool {
    forall|i: int|
        0 <= i < leaves.len() && i < 5 ==> #[trigger] merkle_root(
            leaves.update(i, modified_label(i as nat)),
        ) != root
}

/// Every leaf has a proof from `tree` that verifies against its root.
pub open spec fn proofs_verify(hashes: Seq<Seq<u8>>, leaves: Seq<Seq<u8>>) -> bool {
    forall|i: int|
        0 <= i < leaves.len() ==> #[trigger] spec_verify(
            root_of_level(hashes),
            leaves[i],
            auth_path(hashes, i),
            path_bits(hashes, i),
        )
}

/// The outcome of the property checks on one tree.
#[derive(Debug, Clone)]
pub struct SecurityProperties {
    /// Extending a leaf changes the root
    pub collision_resistance: bool,
    /// Replacing a leaf changes the root
    pub binding_property: bool,
    /// Every leaf's proof verifies
    pub soundness: bool,
    /// Every leaf's proof verifies
    pub completeness: bool,
    /// Leaf and node hashes of the same data differ
    pub domain_separation: bool,
}

impl SecurityProperties {
    /// All properties unchecked (false).
    pub fn new() -> (p: Self)
        ensures
            !p.collision_resistance && !p.binding_property && !p.soundness && !p.completeness
                && !p.domain_separation,
    {
        SecurityProperties {
            collision_resistance: false,
            binding_property: false,
            soundness: false,
            completeness: false,
            domain_separation: false,
        }
    }

    /// Checks every property of `tree` against `leaves`.
    pub fn verify_all(tree: &MerkleTree, leaves: &[Vec<u8>]) -> (p: Self)
        requires
            leaves@.len() >= 1,
            leaves@.len() <= tree.leaf_hashes().len(),
        ensures
            p.collision_resistance == (root_of_level(tree.leaf_hashes()) != merkle_root(
                with_first_extended(leaf_bytes(leaves@)),
            )),
            p.binding_property == binding_holds(root_of_level(tree.leaf_hashes()), leaf_bytes(leaves@)),
            p.soundness == proofs_verify(tree.leaf_hashes(), leaf_bytes(leaves@)),
            p.completeness == proofs_verify(tree.leaf_hashes(), leaf_bytes(leaves@)),
            p.domain_separation == (spec_hash_leaf(test_data()) != spec_hash_node(
                spec_hash_leaf(test_data()),
                spec_hash_leaf(test_data()),
            )),
    {
        let mut properties = Self::new();
        properties.collision_resistance = Self::verify_collision_resistance(tree, leaves);
        properties.binding_property = Self::verify_binding_property(tree, leaves);
        properties.soundness = Self::verify_soundness(tree, leaves);
        properties.completeness = Self::verify_completeness(tree, leaves);
        properties.domain_separation = Self::verify_domain_separation();
        properties
    }

    /// Appending a byte to the first leaf must change the root.
    fn verify_collision_resistance(tree: &MerkleTree, leaves: &[Vec<u8>]) -> (r: bool)
        requires
            leaves@.len() >= 1,
        ensures
            r == (root_of_level(tree.leaf_hashes()) != merkle_root(
                with_first_extended(leaf_bytes(leaves@)),
            )),
    {
        let root1 = tree.root();
        let mut modified = copy_leaves(leaves);
        let mut first = copy_bytes(modified[0].as_slice());
        first.push(1);
        modified.set(0, first);
        assert(leaf_bytes(modified@) =~= with_first_extended(leaf_bytes(leaves@)));
        let root2 = root_of(modified);
        !hash_eq(&root1, &root2)
    }

    /// Replacing any of the first five leaves by `"modified_{i}"` must
    /// change the root.
    fn verify_binding_property(tree: &MerkleTree, leaves: &[Vec<u8>]) -> (r: bool)
        requires
            leaves@.len() >= 1,
        ensures
            r == binding_holds(root_of_level(tree.leaf_hashes()), leaf_bytes(leaves@)),
    {
        let root = tree.root();
        let ghost data = leaf_bytes(leaves@);
        let n = if leaves.len() < 5 {
            leaves.len()
        } else {
            5
        };
        let mut i: usize = 0;
        while i < n
            invariant
                n <= 5,
                n <= leaves@.len(),
                n == leaves@.len() || n == 5,
                0 <= i <= n,
                data == leaf_bytes(leaves@),
                root@ == root_of_level(tree.leaf_hashes()),
                forall|j: int| 0 <= j < i ==> #[trigger] merkle_root(data.update(j, modified_label(j as nat))) != root@,
            decreases n - i,
        {
            let mut alt = copy_leaves(leaves);
            alt.set(i, label(i));
            assert(leaf_bytes(alt@) =~= data.update(i as int, modified_label(i as nat)));
            let alt_root = root_of(alt);
            if hash_eq(&alt_root, &root) {
                let ghost ii: int = i as int;
                assert(merkle_root(data.update(ii, modified_label(ii as nat))) == root@);
                assert(0 <= ii < data.len() && ii < 5);
                assert(!binding_holds(root@, data));
                return false;
            }
            i = i + 1;
        }
        true
    }

    /// Every leaf's proof must verify against the root.
    fn verify_soundness(tree: &MerkleTree, leaves: &[Vec<u8>]) -> (r: bool)
        requires
            leaves@.len() <= tree.leaf_hashes().len(),
        ensures
            r == proofs_verify(tree.leaf_hashes(), leaf_bytes(leaves@)),
    {
        Self::all_proofs_verify(tree, leaves)
    }

    /// Every leaf's proof must verify against the root.
    fn verify_completeness(tree: &MerkleTree, leaves: &[Vec<u8>]) -> (r: bool)
        requires
            leaves@.len() <= tree.leaf_hashes().len(),
        ensures
            r == proofs_verify(tree.leaf_hashes(), leaf_bytes(leaves@)),
    {
        Self::all_proofs_verify(tree, leaves)
    }

    /// Proves and verifies every leaf in turn.
    fn all_proofs_verify(tree: &MerkleTree, leaves: &[Vec<u8>]) -> (r: bool)
        requires
            leaves@.len() <= tree.leaf_hashes().len(),
        ensures
            r == proofs_verify(tree.leaf_hashes(), leaf_bytes(leaves@)),
    {
        let root = tree.root();
        let ghost hashes = tree.leaf_hashes();
        let ghost data = leaf_bytes(leaves@);
        let mut i: usize = 0;
        while i < leaves.len()
            invariant
                0 <= i <= leaves@.len(),
                leaves@.len() <= hashes.len(),
                hashes == tree.leaf_hashes(),
                data == leaf_bytes(leaves@),
                root@ == root_of_level(hashes),
                forall|j: int| 0 <= j < i ==> #[trigger] spec_verify(
                    root_of_level(hashes),
                    data[j],
                    auth_path(hashes, j),
                    path_bits(hashes, j),
                ),
            decreases leaves@.len() - i,
        {
            let proof = tree.prove(i);
            if !verify(root, leaves[i].as_slice(), proof) {
                assert(!spec_verify(root_of_level(hashes), data[i as int], auth_path(hashes, i as int), path_bits(hashes, i as int)));
                return false;
            }
            i = i + 1;
        }
        true
    }

    /// The leaf hash of `"test_data"` must differ from the node hash of two
    /// copies of it.
    pub fn verify_domain_separation() -> (r: bool)
        ensures
            r == (spec_hash_leaf(test_data()) != spec_hash_node(
                spec_hash_leaf(test_data()),
                spec_hash_leaf(test_data()),
            )),
    {
        let data: [u8; 9] = [116u8, 101, 115, 116, 95, 100, 97, 116, 97];
        assert(data@ =~= test_data());
        let leaf = hash_leaf(data.as_slice());
        let internal = hash_internal(&leaf, &leaf);
        !hash_eq(&leaf, &internal)
    }

    /// Whether every property holds.
    pub fn all_satisfied(&self) -> (r: bool)
        ensures
            r == (self.collision_resistance && self.binding_property && self.soundness
                && self.completeness && self.domain_separation),
    {
        self.collision_resistance && self.binding_property && self.soundness && self.completeness
            && self.domain_separation
    }

    /// How many of the five properties hold.
    pub fn satisfied_count(&self) -> (n: usize)
        ensures
            n == (if self.collision_resistance { 1int } else { 0int }) + (if self.binding_property {
                1int
            } else {
                0int
            }) + (if self.soundness { 1int } else { 0int }) + (if self.completeness {
                1int
            } else {
                0int
            }) + (if self.domain_separation { 1int } else { 0int }),
    {
        let mut n: usize = 0;
        if self.collision_resistance {
            n = n + 1;
        }
        if self.binding_property {
            n = n + 1;
        }
        if self.soundness {
            n = n + 1;
        }
        if self.completeness {
            n = n + 1;
        }
        if self.domain_separation {
            n = n + 1;
        }
        n
    }
}

impl Default for SecurityProperties {
    fn default() -> (p: Self)
        ensures
            !p.collision_resistance && !p.binding_property && !p.soundness && !p.completeness
                && !p.domain_separation,
    {
        Self::new()
    }
}

/// The bytes of `"modified_{i}"`.
fn label(i: usize) -> (v: Vec<u8>)
    requires
        i < 10,
    ensures
        v@ == modified_label(i as nat),
{
    let mut v: Vec<u8> = Vec::new();
    v.push(109u8);
    v.push(111u8);
    v.push(100u8);
    v.push(105u8);
    v.push(102u8);
    v.push(105u8);
    v.push(101u8);
    v.push(100u8);
    v.push(95u8);
    v.push(48u8 + i as u8);
    assert(v@ =~= modified_label(i as nat));
    v
}

/// Completeness: on a tree built from `leaves`, every proof verifies, so
/// the soundness and completeness checks hold.
pub proof fn lemma_built_tree_proofs_verify(leaves: Seq<Seq<u8>>)
    requires
        leaves.len() >= 1,
    ensures
        proofs_verify(leaf_level(leaves), leaves),
{
    assert forall|i: int| 0 <= i < leaves.len() implies #[trigger] spec_verify(
        root_of_level(leaf_level(leaves)),
        leaves[i],
        auth_path(leaf_level(leaves), i),
        path_bits(leaf_level(leaves), i),
    ) by {
        lemma_merkle_completeness(leaves, i);
    }
}

} // verus!
