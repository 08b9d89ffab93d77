use vstd::prelude::*;
use crate::hashing::keccak_of;

verus! {

/// The all-zero digest: the root of an accumulator that holds no leaves.
pub open spec fn zero_digest() -> Seq<u8> {
    Seq::new(32, |i: int| 0u8)
}

/// The digests of a level as mathematical byte strings, in order.
pub open spec fn digests_view(level: Seq<[u8; 32]>) -> Seq<Seq<u8>> {
    Seq::new(level.len(), |i: int| level[i]@)
}

/// One level up the tree: adjacent digests pair left-to-right into a keccak
/// parent over their 64-byte concatenation; a trailing unpaired digest is
/// promoted unchanged.
pub open spec fn next_level(level: Seq<Seq<u8>>) -> Seq<Seq<u8>> {
    Seq::new((level.len() + 1) / 2, |i: int|
        if 2 * i + 1 < level.len() {
            keccak_of(level[2 * i] + level[2 * i + 1])
        } else {
            level[2 * i]
        })
}

/// The root that authenticates the given leaf digests: levels are collapsed
/// pairwise until one digest survives; with no leaves the root is the
/// all-zero digest.
pub open spec fn root_of(leaves: Seq<Seq<u8>>) -> Seq<u8>
    decreases leaves.len(),
{
    if leaves.len() == 0 {
        zero_digest()
    } else if leaves.len() == 1 {
        leaves[0]
    } else {
        root_of(next_level(leaves))
    }
}

/// The height of the tree over `n` leaves: halve (rounding up) until one
/// node is left, counting the steps.
pub open spec fn depth_of(n: nat) -> nat
    decreases n,
{
    if n <= 1 {
        0
    } else {
        (1 + depth_of((n + 1) / 2)) as nat
    }
}

/// Inserting one payload into the empty accumulator makes its digest both
/// the only leaf and the root.
pub proof fn lemma_root_single_leaf(payload: Seq<u8>)
    ensures
        root_of(Seq::<Seq<u8>>::empty().push(keccak_of(payload))) == keccak_of(payload),
{
    let leaves = Seq::<Seq<u8>>::empty().push(keccak_of(payload));
    assert(leaves.len() == 1);
}

/// After inserting two payloads in order, the root is the digest of the two
/// leaf digests concatenated, left first.
pub proof fn lemma_root_two_leaves(p1: Seq<u8>, p2: Seq<u8>)
    ensures
        root_of(seq![keccak_of(p1), keccak_of(p2)]) == keccak_of(keccak_of(p1) + keccak_of(p2)),
{
    let leaves = seq![keccak_of(p1), keccak_of(p2)];
    let up = next_level(leaves);
    assert(up.len() == 1);
    assert(up[0] == keccak_of(leaves[0] + leaves[1]));
    assert(root_of(leaves) == root_of(up));
}

/// With three leaves the first two pair into a parent and the third is
/// promoted unchanged; the root hashes that parent with the third digest.
pub proof fn lemma_root_three_leaves(p1: Seq<u8>, p2: Seq<u8>, p3: Seq<u8>)
    ensures
        root_of(seq![keccak_of(p1), keccak_of(p2), keccak_of(p3)]) == keccak_of(
            keccak_of(keccak_of(p1) + keccak_of(p2)) + keccak_of(p3),
        ),
{
    let leaves = seq![keccak_of(p1), keccak_of(p2), keccak_of(p3)];
    let up = next_level(leaves);
    assert(up.len() == 2);
    assert(up[0] == keccak_of(leaves[0] + leaves[1]));
    assert(up[1] == leaves[2]);
    let top = next_level(up);
    assert(top.len() == 1);
    assert(top[0] == keccak_of(up[0] + up[1]));
    assert(root_of(leaves) == root_of(up));
    assert(root_of(up) == root_of(top));
}

/// Appending one leaf never decreases the depth.
pub proof fn lemma_depth_monotone(n: nat)
    ensures
        depth_of(n) <= depth_of(n + 1),
    decreases n,
{
    if n >= 2 {
        if n % 2 == 0 {
            assert((n + 1) / 2 == n / 2);
            assert((n + 2) / 2 == n / 2 + 1);
            lemma_depth_monotone(n / 2);
        } else {
            assert((n + 2) / 2 == (n + 1) / 2);
        }
    }
}

} // verus!
