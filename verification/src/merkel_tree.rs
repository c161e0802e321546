//! The Merkle tree over transaction identifiers. Leaves hash their value;
//! inner nodes hash the two child hashes side by side. A level with an odd
//! node promotes the last one unchanged. The empty tree's root is the
//! all-zero hash. An inclusion proof is a pre-order trace: `true` descends
//! into both children, `false` summarises the subtree by one hash.

use vstd::prelude::*;

use crate::bytes::zero_hash;
use crate::crypt::{sha256, sha256_of};

verus! {

/// One node: empty tree, inner node, or leaf. Inner nodes remember which
/// leaf indexes sit below them, for proof generation.
pub enum MerkelNode {
    Empty { hash: Vec<u8> },
    Node { hash: Vec<u8>, left: Box<MerkelNode>, right: Box<MerkelNode>, indexes: Vec<usize> },
    Leaf { hash: Vec<u8>, value: Vec<u8>, index: usize },
}

/// The hash a node carries.
pub open spec fn node_hash(n: MerkelNode) -> Seq<u8> {
    match n {
        MerkelNode::Empty { hash } => hash@,
        MerkelNode::Node { hash, .. } => hash@,
        MerkelNode::Leaf { hash, .. } => hash@,
    }
}

/// Every hash in the tree is the digest its position demands.
pub open spec fn node_wf(n: MerkelNode) -> bool
    decreases n,
{
    match n {
        MerkelNode::Empty { hash } => hash@.len() == 32,
        MerkelNode::Node { hash, left, right, .. } => {
            &&& hash@ == sha256_of(node_hash(*left) + node_hash(*right))
            &&& hash@.len() == 32
            &&& node_wf(*left)
            &&& node_wf(*right)
        },
        MerkelNode::Leaf { hash, value, .. } => hash@ == sha256_of(value@) && hash@.len() == 32,
    }
}

/// The longest path from a node down to a leaf.
pub open spec fn node_depth(n: MerkelNode) -> nat
    decreases n,
{
    match n {
        MerkelNode::Empty { .. } => 0,
        MerkelNode::Leaf { .. } => 0,
        MerkelNode::Node { left, right, .. } => (1 + if node_depth(*left) >= node_depth(*right) {
            node_depth(*left)
        } else {
            node_depth(*right)
        }) as nat,
    }
}

/// A tree actually built over leaves: no empty placeholder inside.
pub open spec fn proper(n: MerkelNode) -> bool
    decreases n,
{
    match n {
        MerkelNode::Empty { .. } => false,
        MerkelNode::Leaf { .. } => true,
        MerkelNode::Node { left, right, .. } => proper(*left) && proper(*right),
    }
}

/// Every leaf is labelled with an in-range index and hashes the value at
/// that index.
pub open spec fn leaves_within(n: MerkelNode, vals: Seq<Seq<u8>>) -> bool
    decreases n,
{
    match n {
        MerkelNode::Empty { .. } => true,
        MerkelNode::Leaf { hash, index, .. } => index < vals.len() && hash@ == sha256_of(
            vals[index as int],
        ),
        MerkelNode::Node { left, right, .. } => leaves_within(*left, vals) && leaves_within(
            *right,
            vals,
        ),
    }
}

/// Every leaf labelled with the target index carries the target hash: what
/// a membership claim asserts of the tree.
pub open spec fn leaf_target_ok(n: MerkelNode, ti: usize, th: Seq<u8>) -> bool
    decreases n,
{
    match n {
        MerkelNode::Empty { .. } => true,
        MerkelNode::Leaf { hash, index, .. } => index == ti ==> hash@ == th,
        MerkelNode::Node { left, right, .. } => leaf_target_ok(*left, ti, th) && leaf_target_ok(
            *right,
            ti,
            th,
        ),
    }
}

/// In a tree over `vals`, the hash of the value at the target index is a
/// valid membership claim for that index.
pub proof fn lemma_leaves_within_target(n: MerkelNode, vals: Seq<Seq<u8>>, ti: usize)
    requires
        leaves_within(n, vals),
        ti < vals.len(),
    ensures
        leaf_target_ok(n, ti, sha256_of(vals[ti as int])),
    decreases n,
{
    match n {
        MerkelNode::Node { left, right, .. } => {
            lemma_leaves_within_target(*left, vals, ti);
            lemma_leaves_within_target(*right, vals, ti);
        },
        _ => {},
    }
}

/// The hashes of the leaves, in order.
pub open spec fn leaf_hashes(vals: Seq<Seq<u8>>) -> Seq<Seq<u8>> {
    vals.map_values(|v: Seq<u8>| sha256_of(v))
}

/// One level up: hashes paired from the front, a trailing single promoted.
pub open spec fn level_up(hs: Seq<Seq<u8>>) -> Seq<Seq<u8>>
    decreases hs.len(),
{
    if hs.len() <= 1 {
        hs
    } else {
        seq![sha256_of(hs[0] + hs[1])] + level_up(hs.skip(2))
    }
}

/// A level never grows, shrinks while two nodes remain, and pairs exactly:
/// the next level holds one node per pair, the odd leftover included.
pub proof fn lemma_level_up_len(hs: Seq<Seq<u8>>)
    ensures
        hs.len() >= 2 ==> level_up(hs).len() < hs.len(),
        hs.len() >= 1 ==> level_up(hs).len() >= 1,
        level_up(hs).len() <= hs.len(),
        hs.len() >= 2 ==> level_up(hs).len() == (hs.len() + 1) / 2,
    decreases hs.len(),
{
    if hs.len() >= 2 {
        lemma_level_up_len(hs.skip(2));
    }
}

/// How many pairing rounds fold `n` leaves to one root.
pub open spec fn pairing_rounds(n: nat) -> nat
    decreases n,
{
    if n <= 1 {
        0
    } else {
        (1 + pairing_rounds(((n + 1) / 2) as nat)) as nat
    }
}

/// The number of rounds never exceeds the number of leaves.
pub proof fn lemma_pairing_rounds_le(n: nat)
    ensures
        pairing_rounds(n) <= n,
    decreases n,
{
    if n >= 2 {
        lemma_pairing_rounds_le(((n + 1) / 2) as nat);
    }
}

#[via_fn]
proof fn root_of_decreases(hs: Seq<Seq<u8>>) {
    lemma_level_up_len(hs);
}

/// The root over a level of hashes: fold levels until one remains; no
/// hashes give the all-zero root.
pub open spec fn root_of(hs: Seq<Seq<u8>>) -> Seq<u8>
    decreases hs.len(),
        via root_of_decreases
{
    if hs.len() == 0 {
        zero_hash()
    } else if hs.len() == 1 {
        hs[0]
    } else {
        root_of(level_up(hs))
    }
}

/// The hashes a worklist of nodes carries, in order.
pub open spec fn hashes_of(ns: Seq<MerkelNode>) -> Seq<Seq<u8>> {
    ns.map_values(|n: MerkelNode| node_hash(n))
}

/// SHA-256 over two hashes side by side.
pub fn calculate_hash(left: &Vec<u8>, right: &Vec<u8>) -> (r: Vec<u8>)
    ensures
        r@ == sha256_of(left@ + right@),
        r@.len() == 32,
{
    let mut value: Vec<u8> = Vec::new();
    crate::codec::push_bytes(&mut value, left);
    crate::codec::push_bytes(&mut value, right);
    proof {
        assert(value@ =~= left@ + right@);
    }
    sha256(&value)
}

impl MerkelNode {
    /// The empty tree with a fixed hash.
    pub fn empty(hash: Vec<u8>) -> (r: MerkelNode)
        ensures
            node_hash(r) == hash@,
            hash@.len() == 32 ==> node_wf(r),
    {
        MerkelNode::Empty { hash }
    }

    /// A leaf hashing its value.
    pub fn leaf(value: Vec<u8>, index: usize) -> (r: MerkelNode)
        ensures
            node_hash(r) == sha256_of(value@),
            node_wf(r),
            proper(r),
            node_depth(r) == 0,
            r matches MerkelNode::Leaf { index: i, value: v, .. } && i == index && v == value,
    {
        let hash = sha256(&value);
        MerkelNode::Leaf { hash, value, index }
    }

    /// An inner node over two children.
    pub fn node(left: MerkelNode, right: MerkelNode, indexes: Vec<usize>) -> (r: MerkelNode)
        ensures
            node_hash(r) == sha256_of(node_hash(left) + node_hash(right)),
            node_wf(left) && node_wf(right) ==> node_wf(r),
            r matches MerkelNode::Node { left: bl, right: br, .. } && *bl == left && *br
                == right,
    {
        let hash = calculate_hash(left.hash(), right.hash());
        MerkelNode::Node { hash, left: Box::new(left), right: Box::new(right), indexes }
    }

    /// The hash this node carries.
    pub fn hash(&self) -> (r: &Vec<u8>)
        ensures
            r@ == node_hash(*self),
    {
        match self {
            MerkelNode::Empty { hash } => hash,
            MerkelNode::Leaf { hash, .. } => hash,
            MerkelNode::Node { hash, .. } => hash,
        }
    }

    /// The leaf indexes below this node.
    pub fn indexes(&self) -> (r: Vec<usize>) {
        match self {
            MerkelNode::Empty { .. } => {
                let mut v: Vec<usize> = Vec::new();
                v.push(0);
                v
            },
            MerkelNode::Leaf { index, .. } => {
                let mut v: Vec<usize> = Vec::new();
                v.push(*index);
                v
            },
            MerkelNode::Node { indexes, .. } => indexes.clone(),
        }
    }

    /// Whether `x` occurs among this node's recorded leaf indexes.
    fn indexes_contain(&self, x: usize) -> (r: bool)
        ensures
            r == match self {
                MerkelNode::Empty { .. } => x == 0,
                MerkelNode::Leaf { index, .. } => x == index,
                MerkelNode::Node { indexes, .. } => indexes@.contains(x),
            },
    {
        match self {
            MerkelNode::Empty { .. } => x == 0,
            MerkelNode::Leaf { index, .. } => x == *index,
            MerkelNode::Node { indexes, .. } => {
                let mut i: usize = 0;
                while i < indexes.len()
                    invariant
                        0 <= i <= indexes@.len(),
                        forall|j: int| 0 <= j < i ==> indexes@[j] != x,
                        (match self {
                            MerkelNode::Node { indexes: inds, .. } => inds@ == indexes@,
                            _ => false,
                        }),
                    decreases indexes@.len() - i,
                {
                    if indexes[i] == x {
                        proof {
                            assert(indexes@[i as int] == x);
                            assert(indexes@.contains(x));
                        }
                        return true;
                    }
                    i = i + 1;
                }
                false
            },
        }
    }
}

/// The tree: its root, the number of leaves, and how many pairing rounds
/// were folded — the depth of the deepest leaf.
pub struct MerkelTree {
    pub root_node: MerkelNode,
    pub count: usize,
    pub height: usize,
}

impl MerkelTree {
    /// Builds the tree over the given leaf values. The root is determined by
    /// the values alone; with no values it is the all-zero hash.
    pub fn new(transactions: Vec<Vec<u8>>) -> (r: MerkelTree)
        ensures
            r.count == transactions@.len(),
            r.height == pairing_rounds(transactions@.len() as nat),
            node_hash(r.root_node) == root_of(leaf_hashes(transactions.deep_view())),
            node_wf(r.root_node),
            transactions@.len() == 0 ==> node_hash(r.root_node) == zero_hash(),
            transactions@.len() > 0 ==> proper(r.root_node) && node_depth(r.root_node)
                <= r.height && leaves_within(r.root_node, transactions.deep_view()),
    {
        let ghost vals = transactions.deep_view();
        let ghost leaves = leaf_hashes(transactions.deep_view());
        if transactions.is_empty() {
            proof {
                assert(leaves =~= Seq::<Seq<u8>>::empty());
            }
            return MerkelTree {
                root_node: MerkelNode::empty(crate::bytes::zero_hash_vec()),
                count: 0,
                height: 0,
            };
        }
        let count = transactions.len();
        let mut cur: Vec<MerkelNode> = Vec::new();
        let mut i: usize = 0;
        while i < transactions.len()
            invariant
                0 <= i <= transactions@.len(),
                vals == transactions.deep_view(),
                cur@.len() == i,
                hashes_of(cur@) =~= leaf_hashes(transactions.deep_view()).take(i as int),
                forall|k: int| 0 <= k < i ==> node_wf(#[trigger] cur@[k]) && proper(cur@[k])
                    && node_depth(cur@[k]) == 0 && leaves_within(cur@[k], vals),
            decreases transactions@.len() - i,
        {
            let value = transactions[i].clone();
            let ghost pre = cur@;
            cur.push(MerkelNode::leaf(value, i));
            proof {
                assert(transactions@[i as int].deep_view() =~= transactions@[i as int]@);
                assert(leaves_within(cur@[i as int], vals)) by {
                    assert(node_hash(cur@[i as int]) == sha256_of(vals[i as int]));
                }
                assert forall|k: int| 0 <= k < i + 1 implies hashes_of(cur@)[k] == leaf_hashes(
                    transactions.deep_view(),
                ).take(i + 1)[k] by {
                    if k < i {
                        assert(cur@[k] == pre[k]);
                        assert(hashes_of(pre)[k] == node_hash(pre[k]));
                    } else {
                        assert(node_hash(cur@[k]) == sha256_of(transactions@[i as int]@));
                    }
                }
                assert(hashes_of(cur@) =~= leaf_hashes(transactions.deep_view()).take(i + 1));
            }
            i = i + 1;
        }
        proof {
            assert(leaf_hashes(transactions.deep_view()).take(transactions@.len() as int)
                =~= leaves);
        }
        let mut height: usize = 0;
        proof {
            vstd::std_specs::vec::axiom_spec_len(&transactions);
            lemma_pairing_rounds_le(vals.len() as nat);
        }
        while cur.len() > 1
            invariant
                1 <= cur@.len(),
                vals == transactions.deep_view(),
                root_of(hashes_of(cur@)) == root_of(leaves),
                height + pairing_rounds(cur@.len() as nat) == pairing_rounds(vals.len() as nat),
                pairing_rounds(vals.len() as nat) <= usize::MAX,
                forall|k: int| 0 <= k < cur@.len() ==> node_wf(#[trigger] cur@[k]) && proper(
                    cur@[k],
                ) && node_depth(cur@[k]) <= height && leaves_within(cur@[k], vals),
            decreases cur@.len(),
        {
            let ghost hs_full = hashes_of(cur@);
            let ghost orig = cur@.len();
            let mut next: Vec<MerkelNode> = Vec::new();
            while cur.len() > 0
                invariant
                    vals == transactions.deep_view(),
                    level_up(hs_full) =~= hashes_of(next@) + level_up(hashes_of(cur@)),
                    forall|k: int| 0 <= k < cur@.len() ==> node_wf(#[trigger] cur@[k]) && proper(
                        cur@[k],
                    ) && node_depth(cur@[k]) <= height && leaves_within(cur@[k], vals),
                    forall|k: int| 0 <= k < next@.len() ==> node_wf(#[trigger] next@[k])
                        && proper(next@[k]) && node_depth(next@[k]) <= height + 1
                        && leaves_within(next@[k], vals),
                decreases cur@.len(),
            {
                let ghost pre_next = next@;
                let ghost pre_cur = cur@;
                if cur.len() == 1 {
                    let n = cur.remove(0);
                    next.push(n);
                    proof {
                        assert(hashes_of(pre_cur).len() == 1);
                        assert(level_up(hashes_of(pre_cur)) =~= hashes_of(pre_cur));
                        assert(hashes_of(cur@) =~= Seq::<Seq<u8>>::empty());
                        assert(level_up(hashes_of(cur@)) =~= Seq::<Seq<u8>>::empty());
                        assert(hashes_of(next@) =~= hashes_of(pre_next) + hashes_of(pre_cur));
                        assert(level_up(hs_full) =~= hashes_of(next@) + level_up(
                            hashes_of(cur@),
                        ));
                    }
                } else {
                    let left = cur.remove(0);
                    let right = cur.remove(0);
                    let mut indexes = left.indexes();
                    let mut right_indexes = right.indexes();
                    indexes.append(&mut right_indexes);
                    let ghost lh = node_hash(left);
                    let ghost rh = node_hash(right);
                    let n = MerkelNode::node(left, right, indexes);
                    next.push(n);
                    proof {
                        assert(hashes_of(pre_cur)[0] == lh);
                        assert(hashes_of(pre_cur)[1] == rh);
                        assert(hashes_of(pre_cur).len() >= 2);
                        assert(hashes_of(cur@) =~= hashes_of(pre_cur).skip(2));
                        assert(level_up(hashes_of(pre_cur)) =~= seq![sha256_of(lh + rh)]
                            + level_up(hashes_of(cur@)));
                        assert(hashes_of(next@) =~= hashes_of(pre_next).push(
                            sha256_of(lh + rh),
                        ));
                        assert(level_up(hs_full) =~= hashes_of(next@) + level_up(
                            hashes_of(cur@),
                        ));
                    }
                }
            }
            proof {
                assert(hashes_of(cur@) =~= Seq::<Seq<u8>>::empty());
                assert(level_up(hashes_of(cur@)) =~= Seq::<Seq<u8>>::empty());
                assert(hashes_of(next@) =~= level_up(hs_full));
                lemma_level_up_len(hs_full);
                assert(next@.len() >= 1);
                assert(root_of(hashes_of(next@)) == root_of(hs_full));
                assert(next@.len() == (orig + 1) / 2);
                assert(pairing_rounds(orig as nat) == 1 + pairing_rounds(next@.len() as nat));
                assert(height < usize::MAX) by {
                    assert(pairing_rounds(orig as nat) >= 1);
                }
            }
            height = height + 1;
            cur = next;
        }
        let ghost last_level = cur@;
        let root_node = cur.remove(0);
        proof {
            assert(hashes_of(last_level).len() == 1);
            assert(node_hash(root_node) == hashes_of(last_level)[0]);
            assert(root_of(hashes_of(last_level)) == hashes_of(last_level)[0]);
        }
        MerkelTree { root_node, count, height }
    }
}

} // verus!

verus! {

/// The pre-order trace a proof walk yields at one node: `true` opens both
/// children, `false` stands for the whole subtree's hash; at the target leaf
/// the caller's hash is recorded in place of the leaf's own.
pub open spec fn proof_of(n: MerkelNode, target_index: usize, target_hash: Seq<u8>) -> (
    Seq<bool>,
    Seq<Seq<u8>>,
)
    decreases n,
{
    match n {
        MerkelNode::Empty { hash } => (Seq::empty(), seq![hash@]),
        MerkelNode::Node { hash, left, right, indexes } => {
            if indexes@.contains(target_index) {
                let l = proof_of(*left, target_index, target_hash);
                let r = proof_of(*right, target_index, target_hash);
                (seq![true] + l.0 + r.0, seq![hash@] + l.1 + r.1)
            } else {
                (seq![false], seq![hash@])
            }
        },
        MerkelNode::Leaf { hash, index, .. } => {
            if target_index != index {
                (seq![false], seq![hash@])
            } else {
                (seq![false], seq![target_hash])
            }
        },
    }
}

/// Walks the tree towards the target leaf, recording the pre-order trace.
pub fn next_step_proof(node: &MerkelNode, target_index: usize, target_hash: &Vec<u8>) -> (r: (
    Vec<bool>,
    Vec<Vec<u8>>,
))
    ensures
        r.0@ == proof_of(*node, target_index, target_hash@).0,
        r.1.deep_view() == proof_of(*node, target_index, target_hash@).1,
    decreases *node,
{
    match node {
        MerkelNode::Empty { hash } => {
            let mut hashes: Vec<Vec<u8>> = Vec::new();
            hashes.push(hash.clone());
            let bit_mask: Vec<bool> = Vec::new();
            proof {
                assert(hashes@[0]@ =~= hash@);
                assert(hashes.deep_view() =~~= seq![hash@]);
            }
            (bit_mask, hashes)
        },
        MerkelNode::Node { hash, left, right, indexes } => {
            if node.indexes_contain(target_index) {
                let mut bits: Vec<bool> = Vec::new();
                bits.push(true);
                let mut hashes: Vec<Vec<u8>> = Vec::new();
                hashes.push(hash.clone());
                let (mut left_bits, mut left_hashes) = next_step_proof(
                    left,
                    target_index,
                    target_hash,
                );
                let (mut right_bits, mut right_hashes) = next_step_proof(
                    right,
                    target_index,
                    target_hash,
                );
                let ghost l = proof_of(**left, target_index, target_hash@);
                let ghost rr = proof_of(**right, target_index, target_hash@);
                bits.append(&mut left_bits);
                bits.append(&mut right_bits);
                let ghost g1 = hashes;
                let ghost g2 = left_hashes;
                hashes.append(&mut left_hashes);
                proof {
                    crate::views::lemma_deep_view_concat(g1, g2, hashes);
                }
                let ghost g3 = hashes;
                let ghost g4 = right_hashes;
                hashes.append(&mut right_hashes);
                proof {
                    crate::views::lemma_deep_view_concat(g3, g4, hashes);
                    assert(g1@[0]@ =~= hash@);
                    assert(g1.deep_view() =~~= seq![hash@]);
                    assert(bits@ =~= seq![true] + l.0 + rr.0);
                    assert(hashes.deep_view() =~~= (seq![hash@] + l.1) + rr.1);
                    assert((seq![hash@] + l.1) + rr.1 =~= seq![hash@] + l.1 + rr.1);
                }
                (bits, hashes)
            } else {
                let mut bits: Vec<bool> = Vec::new();
                bits.push(false);
                let mut hashes: Vec<Vec<u8>> = Vec::new();
                hashes.push(hash.clone());
                proof {
                    assert(hashes@[0]@ =~= hash@);
                    assert(hashes.deep_view() =~~= seq![hash@]);
                }
                (bits, hashes)
            }
        },
        MerkelNode::Leaf { hash, index, .. } => {
            let mut bits: Vec<bool> = Vec::new();
            bits.push(false);
            let mut hashes: Vec<Vec<u8>> = Vec::new();
            if target_index != *index {
                hashes.push(hash.clone());
                proof {
                    assert(hashes@[0]@ =~= hash@);
                    assert(hashes.deep_view() =~~= seq![hash@]);
                }
            } else {
                hashes.push(target_hash.clone());
                proof {
                    assert(hashes@[0]@ =~= target_hash@);
                    assert(hashes.deep_view() =~~= seq![target_hash@]);
                }
            }
            (bits, hashes)
        },
    }
}

/// One step of reconstruction: read the trace at `pos`; at the maximal depth
/// or under a `false` bit the recorded hash stands for the subtree, under a
/// `true` bit both children are rebuilt and hashed together.
pub open spec fn construct_spec(
    hashes: Seq<Seq<u8>>,
    bits: Seq<bool>,
    pos: int,
    depth: int,
    max_depth: int,
) -> Option<(Seq<u8>, int)>
    decreases max_depth - depth,
{
    if pos < 0 || pos >= bits.len() || pos >= hashes.len() {
        None
    } else if depth >= max_depth {
        Some((hashes[pos], pos + 1))
    } else if bits[pos] {
        match construct_spec(hashes, bits, pos + 1, depth + 1, max_depth) {
            Some((lh, p2)) => match construct_spec(hashes, bits, p2, depth + 1, max_depth) {
                Some((rh, p3)) => Some((sha256_of(lh + rh), p3)),
                None => None,
            },
            None => None,
        }
    } else {
        Some((hashes[pos], pos + 1))
    }
}

fn construct(
    hashes: &Vec<Vec<u8>>,
    bits: &Vec<bool>,
    pos: usize,
    depth: usize,
    max_depth: usize,
) -> (r: Option<(Vec<u8>, usize)>)
    ensures
        r matches Some((h, p)) ==> construct_spec(
            hashes.deep_view(),
            bits@,
            pos as int,
            depth as int,
            max_depth as int,
        ) == Some((h@, p as int)) && pos < p <= bits@.len() && p <= hashes@.len(),
        r is None ==> construct_spec(
            hashes.deep_view(),
            bits@,
            pos as int,
            depth as int,
            max_depth as int,
        ) is None,
    decreases max_depth - depth,
{
    if pos >= bits.len() || pos >= hashes.len() {
        return None;
    }
    if depth >= max_depth {
        return Some((hashes[pos].clone(), pos + 1));
    }
    if bits[pos] {
        let (lh, p2) = match construct(hashes, bits, pos + 1, depth + 1, max_depth) {
            Some(x) => x,
            None => {
                return None;
            },
        };
        let (rh, p3) = match construct(hashes, bits, p2, depth + 1, max_depth) {
            Some(x) => x,
            None => {
                return None;
            },
        };
        Some((calculate_hash(&lh, &rh), p3))
    } else {
        Some((hashes[pos].clone(), pos + 1))
    }
}

impl MerkelTree {
    /// The pre-order inclusion trace for a leaf.
    pub fn get_proof(&self, hash: &Vec<u8>, index: usize) -> (r: (Vec<bool>, Vec<Vec<u8>>))
        ensures
            r.0@ == proof_of(self.root_node, index, hash@).0,
            r.1.deep_view() == proof_of(self.root_node, index, hash@).1,
    {
        next_step_proof(&self.root_node, index, hash)
    }

    /// Rebuilds a root hash from a trace. Fails where the two lists disagree
    /// on length or the trace ends early.
    pub fn reconstruct_root(&self, hashes: Vec<Vec<u8>>, bit_mask: Vec<bool>) -> (r: Result<
        Vec<u8>,
        (),
    >)
        ensures
            r matches Ok(h) ==> hashes@.len() == bit_mask@.len() && (construct_spec(
                hashes.deep_view(),
                bit_mask@,
                0,
                0,
                self.height as int,
            ) matches Some(p) && p.0 == h@),
            r is Err ==> hashes@.len() != bit_mask@.len() || construct_spec(
                hashes.deep_view(),
                bit_mask@,
                0,
                0,
                self.height as int,
            ) is None,
    {
        if hashes.len() != bit_mask.len() {
            return Err(());
        }
        match construct(&hashes, &bit_mask, 0, 0, self.height) {
            Some((h, _)) => Ok(h),
            None => Err(()),
        }
    }
}

} // verus!

verus! {

/// A proper tree's trace is balanced: one bit per hash.
pub proof fn lemma_proof_trace_len(n: MerkelNode, ti: usize, th: Seq<u8>)
    requires
        proper(n),
    ensures
        proof_of(n, ti, th).0.len() == proof_of(n, ti, th).1.len(),
        proof_of(n, ti, th).0.len() >= 1,
    decreases n,
{
    match n {
        MerkelNode::Node { left, right, indexes, .. } => {
            if indexes@.contains(ti) {
                lemma_proof_trace_len(*left, ti, th);
                lemma_proof_trace_len(*right, ti, th);
            }
        },
        _ => {},
    }
}

/// Reconstruction inverts proof generation, one subtree at a time: where a
/// node's trace sits at `pos` inside the lists, rebuilding from `pos` yields
/// the node's own hash and stops right after the trace.
#[verifier::rlimit(100)]
#[verifier::spinoff_prover]
pub proof fn lemma_construct_trace(
    n: MerkelNode,
    ti: usize,
    th: Seq<u8>,
    hashes: Seq<Seq<u8>>,
    bits: Seq<bool>,
    pos: int,
    d: int,
    max: int,
)
    requires
        proper(n),
        node_wf(n),
        leaf_target_ok(n, ti, th),
        node_depth(n) + d <= max,
        0 <= pos,
        pos + proof_of(n, ti, th).0.len() <= bits.len(),
        pos + proof_of(n, ti, th).1.len() <= hashes.len(),
        bits.subrange(pos, pos + proof_of(n, ti, th).0.len() as int) == proof_of(n, ti, th).0,
        hashes.subrange(pos, pos + proof_of(n, ti, th).1.len() as int) == proof_of(n, ti, th).1,
    ensures
        construct_spec(hashes, bits, pos, d, max) == Some(
            (node_hash(n), pos + proof_of(n, ti, th).0.len()),
        ),
    decreases n,
{
    lemma_proof_trace_len(n, ti, th);
    let tr = proof_of(n, ti, th);
    match n {
        MerkelNode::Leaf { hash, index, .. } => {
            assert(tr.0 =~= seq![false]);
            assert(bits[pos] == tr.0[0]);
            assert(hashes[pos] == tr.1[0]);
            assert(hashes[pos] == node_hash(n));
        },
        MerkelNode::Node { hash, left, right, indexes } => {
            assert(node_depth(n) >= 1);
            assert(d < max);
            if indexes@.contains(ti) {
                let lt = proof_of(*left, ti, th);
                let rt = proof_of(*right, ti, th);
                lemma_proof_trace_len(*left, ti, th);
                lemma_proof_trace_len(*right, ti, th);
                assert(tr.0 =~= seq![true] + lt.0 + rt.0);
                assert(tr.1 =~= seq![hash@] + lt.1 + rt.1);
                assert(bits[pos] == tr.0[0]);
                assert(bits[pos] == true);
                assert(hashes[pos] == tr.1[0]);
                let ll = lt.0.len() as int;
                let rl = rt.0.len() as int;
                assert forall|j: int| 0 <= j < tr.0.len() implies bits[pos + j] == tr.0[j] by {
                    assert(bits.subrange(pos, pos + tr.0.len() as int)[j] == tr.0[j]);
                }
                assert forall|j: int| 0 <= j < tr.1.len() implies hashes[pos + j] == tr.1[j] by {
                    assert(hashes.subrange(pos, pos + tr.1.len() as int)[j] == tr.1[j]);
                }
                assert forall|k: int| 0 <= k < ll implies bits.subrange(pos + 1, pos + 1 + ll)[k]
                    == lt.0[k] by {
                    assert(bits[pos + 1 + k] == tr.0[1 + k]);
                    assert(tr.0[1 + k] == lt.0[k]);
                }
                assert(bits.subrange(pos + 1, pos + 1 + ll) =~= lt.0);
                assert forall|k: int| 0 <= k < ll implies hashes.subrange(
                    pos + 1,
                    pos + 1 + ll,
                )[k] == lt.1[k] by {
                    assert(hashes[pos + 1 + k] == tr.1[1 + k]);
                    assert(tr.1[1 + k] == lt.1[k]);
                }
                assert(hashes.subrange(pos + 1, pos + 1 + ll) =~= lt.1);
                lemma_construct_trace(*left, ti, th, hashes, bits, pos + 1, d + 1, max);
                let pos2 = pos + 1 + ll;
                assert forall|k: int| 0 <= k < rl implies bits.subrange(pos2, pos2 + rl)[k]
                    == rt.0[k] by {
                    assert(bits[pos2 + k] == tr.0[1 + ll + k]);
                    assert(tr.0[1 + ll + k] == rt.0[k]);
                }
                assert(bits.subrange(pos2, pos2 + rl) =~= rt.0);
                assert forall|k: int| 0 <= k < rl implies hashes.subrange(pos2, pos2 + rl)[k]
                    == rt.1[k] by {
                    assert(hashes[pos2 + k] == tr.1[1 + ll + k]);
                    assert(tr.1[1 + ll + k] == rt.1[k]);
                }
                assert(hashes.subrange(pos2, pos2 + rl) =~= rt.1);
                lemma_construct_trace(*right, ti, th, hashes, bits, pos2, d + 1, max);
                assert(node_hash(n) == sha256_of(node_hash(*left) + node_hash(*right)));
                assert(construct_spec(hashes, bits, pos, d, max) == Some(
                    (node_hash(n), pos2 + rl),
                ));
                assert(pos2 + rl == pos + tr.0.len());
            } else {
                assert(tr.0 =~= seq![false]);
                assert(bits[pos] == tr.0[0]);
                assert(hashes[pos] == tr.1[0]);
                assert(hashes[pos] == node_hash(n));
            }
        },
        MerkelNode::Empty { .. } => {
            assert(false);
        },
    }
}

/// The membership round trip: for a tree built over values, the trace for a
/// leaf's own hash rebuilds exactly the root, under any depth bound at least
/// the tree's depth — in particular the tree's recorded height.
pub proof fn lemma_merkle_proof_round_trip(
    root: MerkelNode,
    ti: usize,
    th: Seq<u8>,
    max_depth: int,
)
    requires
        proper(root),
        node_wf(root),
        leaf_target_ok(root, ti, th),
        node_depth(root) <= max_depth,
    ensures
        ({
            let tr = proof_of(root, ti, th);
            &&& tr.0.len() == tr.1.len()
            &&& construct_spec(tr.1, tr.0, 0, 0, max_depth) == Some(
                (node_hash(root), tr.0.len() as int),
            )
        }),
{
    lemma_proof_trace_len(root, ti, th);
    let tr = proof_of(root, ti, th);
    assert(tr.0.subrange(0, tr.0.len() as int) =~= tr.0);
    assert(tr.1.subrange(0, tr.1.len() as int) =~= tr.1);
    lemma_construct_trace(root, ti, th, tr.1, tr.0, 0, 0, max_depth);
}

} // verus!
