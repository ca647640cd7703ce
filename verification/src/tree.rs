//! Merkle authorization set for credential commitments.
//!
//! A binary SHAKE-256 Merkle tree over 32-byte commitments. Leaves and
//! internal nodes are hashed under distinct domain separators; the leaf list
//! is padded with zero digests up to the next power of two. Membership is
//! only meaningful relative to a root obtained from a trusted source.

use vstd::prelude::*;
use crate::domain::{commitment_domain, commitment_domain_bytes, node_domain, node_domain_bytes};
use crate::error::ProtocolError;
use crate::shake::{shake256_32, shake256_digest};
use crate::zk_auth::ct_eq_32;

verus! {

/// Largest number of leaves a tree holds: the size of the padded node array
/// must stay addressable. A vector of 32-byte leaves cannot reach this length
/// in memory anyway.
pub open spec fn leaf_limit() -> nat {
    (usize::MAX / 64) as nat
}

/// Domain-separated leaf hash: SHAKE-256("COM_DOM" || data).
pub open spec fn leaf_hash_spec(data: Seq<u8>) -> Seq<u8> {
    shake256_digest(commitment_domain() + data)
}

/// Internal node hash: SHAKE-256("NODE_DOM" || left || right).
pub open spec fn node_hash_spec(left: Seq<u8>, right: Seq<u8>) -> Seq<u8> {
    shake256_digest(node_domain() + left + right)
}

/// `2^d`.
pub open spec fn pow2n(d: nat) -> nat
    decreases d,
{
    if d == 0 {
        1
    } else {
        2 * pow2n((d - 1) as nat)
    }
}

/// Depth of the padded tree over `n` leaves: the smallest `d` with
/// `2^d >= n`.
pub open spec fn tree_depth(n: nat) -> nat
    decreases n,
{
    if n <= 1 {
        0
    } else {
        1 + tree_depth(((n + 1) / 2) as nat)
    }
}

/// Number of leaf slots of the padded tree: the next power of two `>= n`
/// (1 for an empty list).
pub open spec fn leaf_slots(n: nat) -> nat {
    pow2n(tree_depth(n))
}

/// The 32 zero bytes that pad unused leaf slots.
pub open spec fn zero_digest() -> Seq<u8> {
    Seq::new(32, |i: int| 0u8)
}

/// Raw value of leaf slot `i`: the inserted leaf, or zeros past the end.
pub open spec fn padded_leaf(leaves: Seq<[u8; 32]>, i: int) -> Seq<u8> {
    if 0 <= i < leaves.len() {
        leaves[i]@
    } else {
        zero_digest()
    }
}

/// Hash stored at heap index `idx` (root at 1, leaf slots from `slots`) of
/// the tree over `leaves` padded to `slots` leaves.
pub open spec fn node_spec(leaves: Seq<[u8; 32]>, slots: nat, idx: nat) -> Seq<u8>
    decreases 2 * slots - idx,
{
    if idx >= slots {
        leaf_hash_spec(padded_leaf(leaves, idx - slots))
    } else if idx == 0 {
        zero_digest()
    } else {
        node_hash_spec(node_spec(leaves, slots, 2 * idx), node_spec(leaves, slots, 2 * idx + 1))
    }
}

/// Merkle root of a non-empty leaf list.
pub open spec fn merkle_root_spec(leaves: Seq<[u8; 32]>) -> Seq<u8> {
    node_spec(leaves, leaf_slots(leaves.len()), 1)
}

/// Hash obtained by folding the first `n` path levels over the leaf hash.
pub open spec fn path_fold(leaf: Seq<u8>, siblings: Seq<Seq<u8>>, right: Seq<bool>, n: int) -> Seq<u8>
    decreases n,
{
    if n <= 0 {
        leaf_hash_spec(leaf)
    } else {
        let cur = path_fold(leaf, siblings, right, n - 1);
        if right[n - 1] {
            node_hash_spec(siblings[n - 1], cur)
        } else {
            node_hash_spec(cur, siblings[n - 1])
        }
    }
}

/// Byte views of a list of digests.
pub open spec fn sib_views(s: Seq<[u8; 32]>) -> Seq<Seq<u8>> {
    s.map_values(|a: [u8; 32]| a@)
}

/// A path of sibling hashes and directions leads from `leaf` to `root`.
pub open spec fn path_valid(leaf: Seq<u8>, siblings: Seq<Seq<u8>>, right: Seq<bool>, root: Seq<u8>) -> bool {
    &&& siblings.len() == right.len()
    &&& path_fold(leaf, siblings, right, siblings.len() as int) == root
}

/// Heap index of the path node at level `l` above leaf slot `start`.
pub open spec fn path_index(start: nat, l: nat) -> nat
    decreases l,
{
    if l == 0 {
        start
    } else {
        path_index(start, (l - 1) as nat) / 2
    }
}

/// Domain-separated leaf hash.
pub fn hash_leaf(data: &[u8; 32]) -> (h: [u8; 32])
    ensures
        h@ == leaf_hash_spec(data@),
{
    let mut msg = commitment_domain_bytes();
    msg.extend_from_slice(data.as_slice());
    assert(msg@ =~= commitment_domain() + data@);
    shake256_32(msg.as_slice())
}

/// Internal node hash.
pub fn hash_node(left: &[u8; 32], right: &[u8; 32]) -> (h: [u8; 32])
    ensures
        h@ == node_hash_spec(left@, right@),
{
    let mut msg = node_domain_bytes();
    msg.extend_from_slice(left.as_slice());
    msg.extend_from_slice(right.as_slice());
    assert(msg@ =~= node_domain() + left@ + right@);
    shake256_32(msg.as_slice())
}

/// `2^d` is positive.
pub proof fn lemma_pow2n_positive(d: nat)
    ensures
        pow2n(d) >= 1,
    decreases d,
{
    if d > 0 {
        lemma_pow2n_positive((d - 1) as nat);
    }
}

/// `2^d` grows with `d`.
pub proof fn lemma_pow2n_monotone(a: nat, b: nat)
    requires
        a <= b,
    ensures
        1 <= pow2n(a) <= pow2n(b),
    decreases b,
{
    lemma_pow2n_positive(a);
    if b > a {
        lemma_pow2n_monotone(a, (b - 1) as nat);
    }
}

/// `tree_depth(n)` is the smallest `d` with `2^d >= n`.
pub proof fn lemma_tree_depth_minimal(n: nat)
    ensures
        n <= pow2n(tree_depth(n)),
        n >= 2 ==> tree_depth(n) >= 1 && pow2n((tree_depth(n) - 1) as nat) < n,
    decreases n,
{
    lemma_pow2n_positive(tree_depth(n));
    if n >= 2 {
        let m = ((n + 1) / 2) as nat;
        lemma_tree_depth_minimal(m);
        if m >= 2 {
            assert(pow2n(tree_depth(m)) == 2 * pow2n((tree_depth(m) - 1) as nat));
        }
    }
}

/// The padded slot count covers the leaves and less than doubles them.
pub proof fn lemma_leaf_slots_bounds(n: nat)
    ensures
        n <= leaf_slots(n),
        n >= 1 ==> leaf_slots(n) < 2 * n,
        leaf_slots(n) >= 1,
{
    lemma_tree_depth_minimal(n);
    lemma_pow2n_positive(tree_depth(n));
    if n >= 2 {
        assert(pow2n(tree_depth(n)) == 2 * pow2n((tree_depth(n) - 1) as nat));
    }
}

/// Next power of two `>= n` (1 for 0).
fn next_power_of_two(n: usize) -> (p: usize)
    requires
        n <= usize::MAX / 2 + 1,
    ensures
        p == leaf_slots(n as nat),
{
    let mut m: usize = n;
    let mut d: usize = 0;
    while m > 1
        invariant
            m <= n,
            d + tree_depth(m as nat) == tree_depth(n as nat),
            d + m <= n || (d == 0 && m == n),
        decreases m,
    {
        m = m / 2 + m % 2;
        d += 1;
    }
    proof {
        lemma_leaf_slots_bounds(n as nat);
        assert(pow2n(d as nat) <= usize::MAX);
    }
    let mut p: usize = 1;
    let mut k: usize = 0;
    while k < d
        invariant
            0 <= k <= d,
            d == tree_depth(n as nat),
            p == pow2n(k as nat),
            pow2n(d as nat) <= usize::MAX,
        decreases d - k,
    {
        proof {
            lemma_pow2n_monotone((k + 1) as nat, d as nat);
        }
        p = p * 2;
        k += 1;
    }
    p
}

/// Depth of the padded tree over `n` leaves.
fn padded_depth(n: usize) -> (d: usize)
    ensures
        d == tree_depth(n as nat),
{
    let mut m: usize = n;
    let mut d: usize = 0;
    while m > 1
        invariant
            m <= n,
            d + tree_depth(m as nat) == tree_depth(n as nat),
            d + m <= n || (d == 0 && m == n),
        decreases m,
    {
        m = m / 2 + m % 2;
        d += 1;
    }
    d
}

/// A binary Merkle tree over SHAKE-256-hashed 32-byte digests.
///
/// The node array is built lazily and cleared by insertion; when present it
/// holds every heap node of the padded tree over the current leaves.
#[derive(Debug)]
pub struct MerkleTree {
    /// Raw leaf values as inserted.
    leaves: Vec<[u8; 32]>,
    /// Flattened heap of node hashes; index 0 is unused and index 1 is the root.
    nodes: Vec<[u8; 32]>,
}

fn copy_digests(v: &Vec<[u8; 32]>) -> (r: Vec<[u8; 32]>)
    ensures
        r@ == v@,
{
    let mut r: Vec<[u8; 32]> = Vec::new();
    let mut i: usize = 0;
    while i < v.len()
        invariant
            0 <= i <= v@.len(),
            r@ == v@.take(i as int),
        decreases v@.len() - i,
    {
        r.push(v[i]);
        i += 1;
        assert(r@ =~= v@.take(i as int));
    }
    assert(v@.take(v@.len() as int) =~= v@);
    r
}

impl Clone for MerkleTree {
    /// A tree with the same leaves and the same node cache.
    fn clone(&self) -> (r: MerkleTree)
        ensures
            r.leaves_view() == self.leaves_view(),
    {
        proof {
            use_type_invariant(self);
        }
        let leaves = copy_digests(&self.leaves);
        let nodes = copy_digests(&self.nodes);
        MerkleTree { leaves, nodes }
    }
}

/// Merkle inclusion proof for a credential commitment.
///
/// Verifying it confirms that `leaf` hashes up to `root` along the given
/// path. Membership is only meaningful when `root` is trusted.
#[derive(Debug, Clone)]
pub struct MerkleProof {
    /// The raw leaf value whose membership is proven.
    pub leaf: [u8; 32],
    /// Sibling hashes from the leaf level up to the root.
    pub siblings: Vec<[u8; 32]>,
    /// Direction at each level: `false` for a left child, `true` for a right child.
    pub path_indices: Vec<bool>,
    /// The Merkle root computed when the proof was generated.
    pub root: [u8; 32],
}

/// The path in `proof` reconstructs its embedded root.
pub open spec fn inclusion_valid(proof: MerkleProof) -> bool {
    path_valid(proof.leaf@, sib_views(proof.siblings@), proof.path_indices@, proof.root@)
}

/// Level `l` of a path from leaf slot `start`: the direction bit is the
/// parity of the path node, and the sibling is the node next to it.
pub open spec fn path_level_ok(
    leaves: Seq<[u8; 32]>,
    slots: nat,
    start: nat,
    dirs: Seq<bool>,
    sibs: Seq<[u8; 32]>,
    l: int,
) -> bool {
    let cur = path_index(start, l as nat);
    &&& dirs[l] == (cur % 2 == 1)
    &&& sibs[l]@ == node_spec(
        leaves,
        slots,
        if cur % 2 == 0 {
            (cur + 1) as nat
        } else {
            (cur - 1) as nat
        },
    )
}

/// `proof` is the inclusion proof of leaf `index` of the tree over `leaves`.
pub open spec fn is_generated_proof(leaves: Seq<[u8; 32]>, index: nat, proof: MerkleProof) -> bool {
    let slots = leaf_slots(leaves.len());
    let depth = tree_depth(leaves.len());
    &&& proof.leaf == leaves[index as int]
    &&& proof.root@ == merkle_root_spec(leaves)
    &&& proof.siblings@.len() == depth
    &&& proof.path_indices@.len() == depth
    &&& forall|l: int|
        0 <= l < depth ==> #[trigger] path_level_ok(leaves, slots, slots + index, proof.path_indices@, proof.siblings@, l)
}

impl MerkleTree {
    #[verifier::type_invariant]
    spec fn inv(self) -> bool {
        &&& self.leaves@.len() <= leaf_limit()
        &&& self.nodes@.len() == 0 || {
            &&& self.leaves@.len() > 0
            &&& self.nodes@.len() == 2 * leaf_slots(self.leaves@.len())
            &&& forall|idx: int|
                1 <= idx < self.nodes@.len() ==> #[trigger] self.nodes@[idx]@ == node_spec(
                    self.leaves@,
                    leaf_slots(self.leaves@.len()),
                    idx as nat,
                )
        }
    }

    /// The inserted leaves, in order.
    pub closed spec fn leaves_view(&self) -> Seq<[u8; 32]> {
        self.leaves@
    }

    /// Every tree holds at most `leaf_limit()` leaves.
    pub fn check_leaf_count(&self)
        ensures
            self.leaves_view().len() <= leaf_limit(),
    {
        proof {
            use_type_invariant(self);
        }
    }

    /// Creates an empty tree.
    pub fn new() -> (t: MerkleTree)
        ensures
            t.leaves_view() == Seq::<[u8; 32]>::empty(),
    {
        MerkleTree { leaves: Vec::new(), nodes: Vec::new() }
    }

    /// Inserts a commitment and returns its leaf index. The cached nodes are
    /// discarded; there is no error path.
    pub fn insert(&mut self, leaf: [u8; 32]) -> (r: Result<usize, ProtocolError>)
        requires
            old(self).leaves_view().len() < leaf_limit(),
        ensures
            final(self).leaves_view() == old(self).leaves_view().push(leaf),
            r == Ok::<usize, ProtocolError>(old(self).leaves_view().len() as usize),
    {
        let index = self.leaves.len();
        let mut cached: Vec<[u8; 32]> = Vec::new();
        std::mem::swap(&mut cached, &mut self.nodes);
        let mut leaves: Vec<[u8; 32]> = Vec::new();
        std::mem::swap(&mut leaves, &mut self.leaves);
        leaves.push(leaf);
        self.leaves = leaves;
        Ok(index)
    }

    /// The inserted leaves.
    pub fn leaves(&self) -> (r: &[[u8; 32]])
        ensures
            r@ == self.leaves_view(),
    {
        self.leaves.as_slice()
    }

    /// Number of inserted leaves.
    pub fn leaf_count(&self) -> (r: usize)
        ensures
            r == self.leaves_view().len(),
    {
        self.leaves.len()
    }

    /// Depth of the padded tree (0 when empty).
    pub fn depth(&self) -> (r: usize)
        ensures
            r == tree_depth(self.leaves_view().len()),
    {
        if self.leaves.len() == 0 {
            return 0;
        }
        padded_depth(self.leaves.len())
    }

    /// Builds the node heap of the padded tree over the current leaves.
    fn build_tree(&mut self) -> (r: Result<(), ProtocolError>)
        ensures
            final(self).leaves_view() == old(self).leaves_view(),
            r is Ok <==> old(self).leaves_view().len() > 0,
            r is Err ==> r == Err::<(), ProtocolError>(ProtocolError::EmptyTree),
            r is Ok ==> final(self).nodes@.len() > 0,
    {
        proof {
            use_type_invariant(&*self);
        }
        if self.leaves.len() == 0 {
            return Err(ProtocolError::EmptyTree);
        }
        let n = self.leaves.len();
        let num_leaves = next_power_of_two(n);
        proof {
            lemma_leaf_slots_bounds(n as nat);
        }
        let ghost leaves = self.leaves@;
        let ghost slots = num_leaves as nat;
        let total_nodes = 2 * num_leaves;
        let mut nodes: Vec<[u8; 32]> = Vec::with_capacity(total_nodes);
        let zero = [0u8; 32];
        assert(zero@ =~= zero_digest());
        let mut i: usize = 0;
        while i < total_nodes
            invariant
                0 <= i <= total_nodes,
                nodes@.len() == i,
            decreases total_nodes - i,
        {
            nodes.push(zero);
            i += 1;
        }
        let mut i: usize = 0;
        while i < num_leaves
            invariant
                0 <= i <= num_leaves,
                num_leaves == slots,
                total_nodes == 2 * slots,
                n == leaves.len(),
                n <= slots,
                self.leaves@ == leaves,
                zero@ == zero_digest(),
                nodes@.len() == total_nodes,
                forall|x: int| slots <= x < slots + i ==> #[trigger] nodes@[x]@ == node_spec(leaves, slots, x as nat),
            decreases num_leaves - i,
        {
            let h = if i < self.leaves.len() {
                hash_leaf(&self.leaves[i])
            } else {
                hash_leaf(&zero)
            };
            nodes.set(num_leaves + i, h);
            i += 1;
        }
        let mut i: usize = num_leaves;
        while i > 1
            invariant
                1 <= i <= num_leaves,
                num_leaves == slots,
                total_nodes == 2 * slots,
                nodes@.len() == total_nodes,
                forall|x: int| i <= x < 2 * slots ==> #[trigger] nodes@[x]@ == node_spec(leaves, slots, x as nat),
            decreases i,
        {
            i -= 1;
            let left = nodes[2 * i];
            let right = nodes[2 * i + 1];
            let h = hash_node(&left, &right);
            nodes.set(i, h);
        }
        self.nodes = nodes;
        Ok(())
    }

    /// Computes the Merkle root.
    ///
    /// Returns `ProtocolError::EmptyTree` when no leaf has been inserted.
    pub fn root(&mut self) -> (r: Result<[u8; 32], ProtocolError>)
        ensures
            final(self).leaves_view() == old(self).leaves_view(),
            old(self).leaves_view().len() == 0 ==> r == Err::<[u8; 32], ProtocolError>(ProtocolError::EmptyTree),
            old(self).leaves_view().len() > 0 ==> (r matches Ok(h) && h@ == merkle_root_spec(old(self).leaves_view())),
    {
        if self.leaves.len() == 0 {
            return Err(ProtocolError::EmptyTree);
        }
        if self.nodes.len() == 0 {
            let _ = self.build_tree();
        }
        proof {
            use_type_invariant(&*self);
            lemma_leaf_slots_bounds(self.leaves@.len());
        }
        Ok(self.nodes[1])
    }

    /// Generates the inclusion proof of the leaf at `leaf_index`.
    ///
    /// Returns `ProtocolError::InvalidLeafIndex` when the index is not below
    /// the number of inserted leaves.
    #[verifier::spinoff_prover]
    #[verifier::rlimit(30)]
    pub fn generate_inclusion_proof(&mut self, leaf_index: usize) -> (r: Result<MerkleProof, ProtocolError>)
        ensures
            final(self).leaves_view() == old(self).leaves_view(),
            leaf_index >= old(self).leaves_view().len() ==> r == Err::<MerkleProof, ProtocolError>(
                ProtocolError::InvalidLeafIndex {
                    index: leaf_index,
                    total_leaves: old(self).leaves_view().len() as usize,
                },
            ),
            leaf_index < old(self).leaves_view().len() ==> (r matches Ok(p) && is_generated_proof(
                old(self).leaves_view(),
                leaf_index as nat,
                p,
            )),
            r matches Ok(p) ==> inclusion_valid(p) && forall|l: int|
                0 <= l < tree_depth(old(self).leaves_view().len()) ==> #[trigger] p.path_indices@[l] == (((leaf_index
                    as nat) / pow2n(l as nat)) % 2 == 1),
    {
        if leaf_index >= self.leaves.len() {
            return Err(ProtocolError::InvalidLeafIndex { index: leaf_index, total_leaves: self.leaves.len() });
        }
        if self.nodes.len() == 0 {
            let _ = self.build_tree();
        }
        proof {
            use_type_invariant(&*self);
        }
        let n = self.leaves.len();
        let num_leaves = next_power_of_two(n);
        let depth = padded_depth(n);
        let ghost leaves = self.leaves@;
        let ghost slots = num_leaves as nat;
        proof {
            lemma_leaf_slots_bounds(n as nat);
            lemma_pow2n_monotone(0, depth as nat);
        }
        let ghost start: nat = slots + leaf_index as nat;
        let mut siblings: Vec<[u8; 32]> = Vec::with_capacity(depth);
        let mut path_indices: Vec<bool> = Vec::with_capacity(depth);
        let mut current_index = num_leaves + leaf_index;
        let mut level: usize = 0;
        while level < depth
            invariant
                0 <= level <= depth,
                depth == tree_depth(n as nat),
                n == leaves.len(),
                leaf_index < n,
                num_leaves == slots,
                start == slots + leaf_index,
                slots == pow2n(depth as nat),
                self.leaves@ == leaves,
                self.nodes@.len() == 2 * slots,
                forall|idx: int|
                    1 <= idx < self.nodes@.len() ==> #[trigger] self.nodes@[idx]@ == node_spec(leaves, slots, idx as nat),
                current_index == path_index(start, level as nat),
                pow2n((depth - level) as nat) <= current_index < 2 * pow2n((depth - level) as nat),
                siblings@.len() == level,
                path_indices@.len() == level,
                forall|l: int|
                    0 <= l < level ==> #[trigger] path_level_ok(leaves, slots, start, path_indices@, siblings@, l),
            decreases depth - level,
        {
            proof {
                lemma_pow2n_monotone((depth - level) as nat, depth as nat);
                lemma_pow2n_monotone(1, (depth - level) as nat);
                assert(pow2n((depth - level) as nat) == 2 * pow2n((depth - level - 1) as nat));
            }
            let is_left_child = current_index % 2 == 0;
            let sibling_index = if is_left_child { current_index + 1 } else { current_index - 1 };
            let ghost old_siblings = siblings@;
            let ghost old_dirs = path_indices@;
            siblings.push(self.nodes[sibling_index]);
            path_indices.push(!is_left_child);
            proof {
                assert(siblings@[level as int]@ == node_spec(leaves, slots, sibling_index as nat));
                assert forall|l: int| 0 <= l < level + 1 implies #[trigger] path_level_ok(leaves, slots, start, path_indices@, siblings@, l) by {
                    if l < level {
                        assert(path_level_ok(leaves, slots, start, old_dirs, old_siblings, l));
                        assert(path_indices@[l] == old_dirs[l]);
                        assert(siblings@[l] == old_siblings[l]);
                    }
                }
            }
            current_index = current_index / 2;
            level += 1;
        }
        proof {
            assert(self.nodes@[1]@ == node_spec(leaves, slots, 1));
        }
        let proof_value = MerkleProof {
            leaf: self.leaves[leaf_index],
            siblings,
            path_indices,
            root: self.nodes[1],
        };
        proof {
            assert(slots == leaf_slots(leaves.len()));
            assert forall|l: int| 0 <= l < depth implies #[trigger] path_level_ok(
                leaves,
                leaf_slots(leaves.len()),
                leaf_slots(leaves.len()) + leaf_index as nat,
                proof_value.path_indices@,
                proof_value.siblings@,
                l,
            ) by {
                assert(path_level_ok(leaves, slots, start, path_indices@, siblings@, l));
            }
            assert(is_generated_proof(leaves, leaf_index as nat, proof_value));
            lemma_generated_proof_verifies(leaves, leaf_index as nat, proof_value);
            lemma_generated_directions_are_index_bits(leaves, leaf_index as nat, proof_value);
        }
        Ok(proof_value)
    }

    /// Verifies an inclusion proof against its embedded root. Input whose
    /// sibling and direction lists differ in length is rejected.
    ///
    /// A `true` result only means that the path reconstructs `proof.root`;
    /// the caller must compare that root with a trusted root.
    pub fn verify_inclusion_proof(proof: &MerkleProof) -> (r: bool)
        ensures
            r == inclusion_valid(*proof),
    {
        if proof.siblings.len() != proof.path_indices.len() {
            return false;
        }
        let mut current = hash_leaf(&proof.leaf);
        let mut i: usize = 0;
        while i < proof.siblings.len()
            invariant
                0 <= i <= proof.siblings@.len(),
                proof.siblings@.len() == proof.path_indices@.len(),
                current@ == path_fold(proof.leaf@, sib_views(proof.siblings@), proof.path_indices@, i as int),
            decreases proof.siblings@.len() - i,
        {
            let sibling = proof.siblings[i];
            assert(sib_views(proof.siblings@)[i as int] == sibling@);
            if !proof.path_indices[i] {
                current = hash_node(&current, &sibling);
            } else {
                current = hash_node(&sibling, &current);
            }
            i += 1;
        }
        ct_eq_32(&current, &proof.root)
    }
}

impl Default for MerkleTree {
    fn default() -> (t: MerkleTree)
        ensures
            t.leaves_view() == Seq::<[u8; 32]>::empty(),
    {
        MerkleTree::new()
    }
}

/// Heap indices along a leaf's path stay within their level.
pub proof fn lemma_path_index_bounds(start: nat, depth: nat, l: nat)
    requires
        pow2n(depth) <= start < 2 * pow2n(depth),
        l <= depth,
    ensures
        pow2n((depth - l) as nat) <= path_index(start, l) < 2 * pow2n((depth - l) as nat),
    decreases l,
{
    if l > 0 {
        lemma_path_index_bounds(start, depth, (l - 1) as nat);
        assert(pow2n((depth - l + 1) as nat) == 2 * pow2n((depth - l) as nat));
    }
}

/// Folding the first `l` levels of a generated proof gives the heap node on
/// the leaf's path at level `l`.
proof fn lemma_generated_fold(leaves: Seq<[u8; 32]>, index: nat, proof: MerkleProof, l: nat)
    requires
        index < leaves.len(),
        is_generated_proof(leaves, index, proof),
        l <= tree_depth(leaves.len()),
    ensures
        path_fold(proof.leaf@, sib_views(proof.siblings@), proof.path_indices@, l as int) == node_spec(
            leaves,
            leaf_slots(leaves.len()),
            path_index(leaf_slots(leaves.len()) + index, l),
        ),
    decreases l,
{
    let n = leaves.len();
    let depth = tree_depth(n);
    let slots = leaf_slots(n);
    let start = slots + index;
    lemma_leaf_slots_bounds(n);
    if l > 0 {
        let k = (l - 1) as nat;
        lemma_generated_fold(leaves, index, proof, k);
        lemma_path_index_bounds(start, depth, k);
        lemma_path_index_bounds(start, depth, l);
        lemma_pow2n_monotone((depth - k) as nat, depth);
        lemma_pow2n_monotone(0, (depth - l) as nat);
        assert(pow2n((depth - k) as nat) == 2 * pow2n((depth - l) as nat));
        let cur = path_index(start, k);
        let c = path_index(start, l);
        assert(c == cur / 2);
        assert(1 <= c < slots);
        assert(path_level_ok(leaves, slots, start, proof.path_indices@, proof.siblings@, k as int));
        assert(proof.path_indices@[k as int] == (cur % 2 == 1));
        let fold_k = path_fold(proof.leaf@, sib_views(proof.siblings@), proof.path_indices@, k as int);
        assert(sib_views(proof.siblings@)[k as int] == proof.siblings@[k as int]@);
        assert(fold_k == node_spec(leaves, slots, cur));
        assert(node_spec(leaves, slots, c) == node_hash_spec(
            node_spec(leaves, slots, 2 * c),
            node_spec(leaves, slots, 2 * c + 1),
        ));
        if cur % 2 == 1 {
            assert(2 * c + 1 == cur);
            assert(proof.siblings@[k as int]@ == node_spec(leaves, slots, (cur - 1) as nat));
        } else {
            assert(2 * c == cur);
            assert(proof.siblings@[k as int]@ == node_spec(leaves, slots, (cur + 1) as nat));
        }
    } else {
        assert(start >= slots);
        assert(path_index(start, 0) == start);
        assert(padded_leaf(leaves, index as int) == leaves[index as int]@);
        assert(node_spec(leaves, slots, start) == leaf_hash_spec(leaves[index as int]@));
    }
}

/// Completeness of inclusion proofs: the proof generated for any inserted
/// leaf is accepted by the verifier.
pub proof fn lemma_generated_proof_verifies(leaves: Seq<[u8; 32]>, index: nat, proof: MerkleProof)
    requires
        index < leaves.len(),
        is_generated_proof(leaves, index, proof),
    ensures
        inclusion_valid(proof),
{
    let n = leaves.len();
    let depth = tree_depth(n);
    let slots = leaf_slots(n);
    lemma_leaf_slots_bounds(n);
    lemma_generated_fold(leaves, index, proof, depth);
    lemma_path_index_bounds(slots + index, depth, depth);
}

/// The path node at level `l` above slot `start` is `start / 2^l`.
pub proof fn lemma_path_index_div(start: nat, l: nat)
    ensures
        path_index(start, l) == start / pow2n(l),
    decreases l,
{
    lemma_pow2n_positive(l);
    if l > 0 {
        let k = (l - 1) as nat;
        lemma_path_index_div(start, k);
        lemma_pow2n_positive(k);
        vstd::arithmetic::div_mod::lemma_div_denominator(start as int, pow2n(k) as int, 2);
        assert(pow2n(k) * 2 == pow2n(l));
        assert(path_index(start, l) == path_index(start, k) / 2);
    } else {
        assert(pow2n(0) == 1);
        assert(start / 1 == start);
    }
}

/// `2^a * 2^b == 2^(a + b)`.
proof fn lemma_pow2n_add(a: nat, b: nat)
    ensures
        pow2n(a) * pow2n(b) == pow2n(a + b),
    decreases a,
{
    if a > 0 {
        let a1 = (a - 1) as nat;
        lemma_pow2n_add(a1, b);
        let x = pow2n(a1);
        let y = pow2n(b);
        assert(pow2n(a) == 2 * x);
        assert(pow2n(a) * y == 2 * (x * y)) by (nonlinear_arith)
            requires pow2n(a) == 2 * x;
        assert(a1 + b + 1 == a + b);
        assert(pow2n(a + b) == 2 * pow2n(a1 + b));
    } else {
        assert(pow2n(a) == 1);
        assert(a + b == b);
    }
}

/// The directions of a generated inclusion proof are the bits of the leaf
/// index, least significant first: at level `l` the path node is a right
/// child exactly when bit `l` of `index` is set.
pub proof fn lemma_generated_directions_are_index_bits(leaves: Seq<[u8; 32]>, index: nat, proof: MerkleProof)
    requires
        index < leaves.len(),
        is_generated_proof(leaves, index, proof),
    ensures
        forall|l: int|
            0 <= l < tree_depth(leaves.len()) ==> #[trigger] proof.path_indices@[l] == ((index / pow2n(l as nat))
                % 2 == 1),
{
    let n = leaves.len();
    let depth = tree_depth(n);
    let slots = leaf_slots(n);
    assert forall|l: int| 0 <= l < depth implies #[trigger] proof.path_indices@[l] == ((index / pow2n(l as nat)) % 2
        == 1) by {
        let ln = l as nat;
        let rest = (depth - ln) as nat;
        assert(path_level_ok(leaves, slots, slots + index, proof.path_indices@, proof.siblings@, l));
        lemma_path_index_div(slots + index, ln);
        lemma_pow2n_positive(ln);
        lemma_pow2n_add(rest, ln);
        assert(rest + ln == depth);
        assert(slots == pow2n(rest) * pow2n(ln));
        vstd::arithmetic::div_mod::lemma_hoist_over_denominator(index as int, pow2n(rest) as int, pow2n(ln));
        assert((slots + index) / pow2n(ln) == pow2n(rest) + index / pow2n(ln));
        assert(pow2n(rest) == 2 * pow2n((rest - 1) as nat));
    }
}

/// Padding law: every leaf slot of the padded tree past the inserted leaves
/// holds the leaf hash of 32 zero bytes, exactly as if a zero leaf had been
/// inserted there.
pub proof fn lemma_padding_slots_hold_zero_leaf_hash(leaves: Seq<[u8; 32]>, i: nat)
    requires
        leaves.len() <= i < leaf_slots(leaves.len()),
    ensures
        node_spec(leaves, leaf_slots(leaves.len()), leaf_slots(leaves.len()) + i) == leaf_hash_spec(
            Seq::new(32, |k: int| 0u8),
        ),
{
    assert(padded_leaf(leaves, i as int) =~= Seq::new(32, |k: int| 0u8));
}

/// The root of three leaves `a, b, c`: the fourth slot is padded with the
/// leaf hash of 32 zero bytes.
pub proof fn lemma_three_leaf_root(a: [u8; 32], b: [u8; 32], c: [u8; 32])
    ensures
        merkle_root_spec(seq![a, b, c]) == node_hash_spec(
            node_hash_spec(leaf_hash_spec(a@), leaf_hash_spec(b@)),
            node_hash_spec(leaf_hash_spec(c@), leaf_hash_spec(Seq::new(32, |k: int| 0u8))),
        ),
{
    let leaves = seq![a, b, c];
    assert(tree_depth(1) == 0);
    assert(((2nat + 1) / 2) as nat == 1);
    assert(tree_depth(2) == 1);
    assert(((3nat + 1) / 2) as nat == 2);
    assert(tree_depth(3) == 2);
    assert(pow2n(0) == 1);
    assert(pow2n(1) == 2);
    assert(pow2n(2) == 4);
    assert(leaf_slots(3) == 4);
    assert(padded_leaf(leaves, 0) == a@);
    assert(padded_leaf(leaves, 1) == b@);
    assert(padded_leaf(leaves, 2) == c@);
    assert(padded_leaf(leaves, 3) =~= Seq::new(32, |k: int| 0u8));
    assert(node_spec(leaves, 4, 2) == node_hash_spec(node_spec(leaves, 4, 4), node_spec(leaves, 4, 5)));
    assert(node_spec(leaves, 4, 3) == node_hash_spec(node_spec(leaves, 4, 6), node_spec(leaves, 4, 7)));
}

/// `tree_depth(2^d) == d`.
proof fn lemma_tree_depth_pow2(d: nat)
    ensures
        tree_depth(pow2n(d)) == d,
    decreases d,
{
    lemma_pow2n_positive(d);
    if d > 0 {
        let e = (d - 1) as nat;
        lemma_tree_depth_pow2(e);
        lemma_pow2n_positive(e);
        assert(pow2n(d) == 2 * pow2n(e));
        assert(((pow2n(d) + 1) / 2) as nat == pow2n(e));
    }
}

proof fn lemma_node_zero_padding(leaves: Seq<[u8; 32]>, padded: Seq<[u8; 32]>, slots: nat, idx: nat)
    requires
        leaves.len() <= slots,
        padded.len() == slots,
        forall|i: int| 0 <= i < leaves.len() ==> #[trigger] padded[i] == leaves[i],
        forall|i: int| leaves.len() <= i < slots ==> #[trigger] padded[i]@ == zero_digest(),
        1 <= idx < 2 * slots,
    ensures
        node_spec(leaves, slots, idx) == node_spec(padded, slots, idx),
    decreases 2 * slots - idx,
{
    if idx >= slots {
        let i = idx - slots;
        if i < leaves.len() {
            assert(padded_leaf(padded, i) == padded_leaf(leaves, i));
        } else {
            assert(padded_leaf(padded, i) == padded_leaf(leaves, i));
        }
    } else {
        lemma_node_zero_padding(leaves, padded, slots, 2 * idx);
        lemma_node_zero_padding(leaves, padded, slots, 2 * idx + 1);
    }
}

/// Padding law over two roots: the root of a non-empty leaf list is the
/// root of the same list extended with zero leaves up to the next power of
/// two; `zero` is the all-zero leaf.
pub proof fn lemma_root_of_zero_padded_leaves(leaves: Seq<[u8; 32]>, zero: [u8; 32])
    requires
        leaves.len() >= 1,
        zero@ == Seq::new(32, |k: int| 0u8),
    ensures
        merkle_root_spec(leaves) == merkle_root_spec(
            leaves + Seq::new((leaf_slots(leaves.len()) - leaves.len()) as nat, |k: int| zero),
        ),
{
    let n = leaves.len();
    let slots = leaf_slots(n);
    lemma_leaf_slots_bounds(n);
    let padded = leaves + Seq::new((slots - n) as nat, |k: int| zero);
    assert(padded.len() == slots);
    lemma_tree_depth_pow2(tree_depth(n));
    assert(leaf_slots(padded.len()) == slots);
    assert forall|i: int| 0 <= i < n implies #[trigger] padded[i] == leaves[i] by {}
    assert forall|i: int| n <= i < slots implies #[trigger] padded[i]@ == zero_digest() by {
        assert(padded[i] == zero);
        assert(zero@ =~= zero_digest());
    }
    lemma_node_zero_padding(leaves, padded, slots, 1);
}

} // verus!
