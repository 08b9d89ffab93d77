use vstd::prelude::*;
use crate::codec::{decode_spec, encode, encode_spec, load_state, push_digest};
use crate::error::MTreeError;
use crate::hashing::{keccak256, keccak_of};
use crate::instruction::{decode_instruction_spec, MTreeInstruction};
use crate::merkle::{depth_of, digests_view, next_level, root_of};
use crate::state::MTree;

verus! {

/// The leaf sequence after inserting `payload` into whatever state the
/// buffer held: the decoded leaves — none when the bytes do not decode —
/// with the payload's digest appended.
pub open spec fn leaves_after_insert(buffer: Seq<u8>, payload: Seq<u8>) -> Seq<Seq<u8>> {
    (match decode_spec(buffer) {
        Some(p) => p.1,
        None => Seq::<Seq<u8>>::empty(),
    }).push(keccak_of(payload))
}

/// How many bytes the state over the given leaves needs in storage.
pub open spec fn needed_len(leaves: Seq<Seq<u8>>) -> int {
    36 + 32 * (leaves.len() as int)
}

/// Whether the updated state can be committed: its count must fit the
/// 4-byte prefix of the encoding and the encoding must fit the buffer.
pub open spec fn fits(leaves: Seq<Seq<u8>>, buffer: Seq<u8>) -> bool {
    leaves.len() <= u32::MAX && needed_len(leaves) <= buffer.len()
}

/// What one insertion does to the storage buffer and what it returns: if
/// the updated state fits, its encoding overwrites the buffer's leading
/// bytes and the rest stay as they were; otherwise nothing is written and
/// the needed and available sizes are reported.
pub open spec fn insert_outcome(
    payload: Seq<u8>,
    before: Seq<u8>,
    after: Seq<u8>,
    r: Result<(), MTreeError>,
) -> bool {
    let leaves = leaves_after_insert(before, payload);
    if fits(leaves, before) {
        r == Ok::<(), MTreeError>(()) && after == encode_spec(root_of(leaves), leaves)
            + before.skip(needed_len(leaves))
    } else {
        r == Err::<(), MTreeError>(
            MTreeError::CapacityExceeded {
                needed: needed_len(leaves) as u64,
                available: before.len() as u64,
            },
        ) && after == before
    }
}

/// Applies decoded operation requests to the state held in a storage
/// buffer; each call fully commits or fully aborts.
pub struct Processor;

impl Processor {
    /// Handles one raw instruction against the storage buffer: decodes the
    /// request, loads the state (fresh when the buffer does not decode),
    /// inserts the leaf, re-encodes, and commits only when the encoding
    /// fits. A failed call leaves the buffer byte-for-byte unchanged.
    pub fn process(instruction_data: &[u8], storage: &mut Vec<u8>) -> (r: Result<(), MTreeError>)
        ensures
            final(storage)@.len() == old(storage)@.len(),
            match decode_instruction_spec(instruction_data@) {
                Some(payload) => insert_outcome(payload, old(storage)@, final(storage)@, r),
                None => r == Err::<(), MTreeError>(MTreeError::InstructionDecodeFailure)
                    && final(storage)@ == old(storage)@,
            },
    {
        match MTreeInstruction::decode(instruction_data) {
            Some(MTreeInstruction::InsertLeaf { data }) => {
                Self::process_insert_leaf(data.as_slice(), storage)
            },
            None => Err(MTreeError::InstructionDecodeFailure),
        }
    }

    /// Inserts one leaf: loads the state from the buffer (fresh when the
    /// bytes do not decode), appends the payload's digest, recomputes the
    /// root, and writes the new encoding over the buffer's leading bytes,
    /// leaving the bytes past it untouched. When the new encoding does not
    /// fit, nothing is written and the sizes are reported.
    pub fn process_insert_leaf(payload: &[u8], storage: &mut Vec<u8>) -> (r: Result<
        (),
        MTreeError,
    >)
        ensures
            final(storage)@.len() == old(storage)@.len(),
            insert_outcome(payload@, old(storage)@, final(storage)@, r),
    {
        let mut tree: MTree = load_state(storage.as_slice());
        proof {
            if decode_spec(storage@) is Some {
                assert(tree.leaves_view().len() <= u32::MAX);
            }
        }
        insert_leaf(&mut tree, payload);
        let ghost leaves: Seq<Seq<u8>> = leaves_after_insert(storage@, payload@);
        proof {
            assert(tree.leaves_view() == leaves);
            assert(tree.leaves@.len() == leaves.len());
            assert(leaves.len() <= u32::MAX as int + 1);
        }
        let new_count: usize = tree.leaves.len();
        let needed: u64 = 36u64 + 32u64 * (new_count as u64);
        let available: u64 = storage.len() as u64;
        if new_count as u64 > u32::MAX as u64 || needed > available {
            return Err(MTreeError::CapacityExceeded { needed, available });
        }
        let enc: Vec<u8> = encode(&tree);
        let ghost enc_view: Seq<u8> = enc@;
        let mut out: Vec<u8> = enc;
        let mut j: usize = out.len();
        while j < storage.len()
            invariant
                enc_view.len() <= j <= storage@.len(),
                out@ == enc_view + storage@.subrange(enc_view.len() as int, j as int),
            decreases storage@.len() - j,
        {
            let b: u8 = storage[j];
            out.push(b);
            proof {
                assert(out@ =~= enc_view + storage@.subrange(enc_view.len() as int, j + 1));
            }
            j = j + 1;
        }
        proof {
            assert(out@.len() == storage@.len());
            assert(out@ =~= enc_view + storage@.skip(needed_len(leaves)));
        }
        *storage = out;
        Ok(())
    }
}

/// Appends the digest of `data` to the leaf sequence and recomputes the root
/// from scratch over the whole sequence: levels collapse pairwise, left to
/// right, and a trailing unpaired digest is promoted unchanged.
pub fn insert_leaf(tree: &mut MTree, data: &[u8])
    ensures
        final(tree).leaves_view() == old(tree).leaves_view().push(keccak_of(data@)),
        final(tree).leaves@.len() == old(tree).leaves@.len() + 1,
        final(tree).wf(),
{
    let digest: [u8; 32] = keccak256(data);
    tree.leaves.push(digest);

    // Recompute the root over a working copy of the full leaf level.
    let mut level: Vec<[u8; 32]> = Vec::new();
    let mut c: usize = 0;
    while c < tree.leaves.len()
        invariant
            c <= tree.leaves@.len(),
            level@ =~= tree.leaves@.subrange(0, c as int),
            tree.leaves@ == old(tree).leaves@.push(digest),
        decreases tree.leaves@.len() - c,
    {
        level.push(tree.leaves[c]);
        c = c + 1;
    }
    proof {
        assert(level@ =~= tree.leaves@);
        assert(digests_view(level@) =~= tree.leaves_view());
    }

    while level.len() > 1
        invariant
            level@.len() >= 1,
            root_of(digests_view(level@)) == root_of(tree.leaves_view()),
            tree.leaves@ == old(tree).leaves@.push(digest),
            digest@ == keccak_of(data@),
        decreases level@.len(),
    {
        let ghost cur: Seq<Seq<u8>> = digests_view(level@);
        let mut next: Vec<[u8; 32]> = Vec::new();
        let mut i: usize = 0;
        while i < level.len()
            invariant
                level@.len() >= 2,
                cur == digests_view(level@),
                next@.len() <= (level@.len() + 1) / 2,
                i == 2 * next@.len() || (i == level@.len() && next@.len() == (level@.len() + 1) / 2),
                digests_view(next@) =~= next_level(cur).subrange(0, next@.len() as int),
            decreases level@.len() - i,
        {
            let ghost k = next@.len() as int;
            if i + 1 < level.len() {
                let mut combined: Vec<u8> = Vec::new();
                push_digest(&mut combined, &level[i]);
                push_digest(&mut combined, &level[i + 1]);
                let parent: [u8; 32] = keccak256(combined.as_slice());
                next.push(parent);
                proof {
                    assert(next_level(cur)[k] == keccak_of(cur[2 * k] + cur[2 * k + 1]));
                    assert(digests_view(next@) =~= next_level(cur).subrange(0, k + 1));
                }
                i = i + 2;
            } else {
                next.push(level[i]);
                proof {
                    assert(next_level(cur)[k] == cur[2 * k]);
                    assert(digests_view(next@) =~= next_level(cur).subrange(0, k + 1));
                }
                i = i + 1;
            }
        }
        proof {
            assert(next@.len() == (level@.len() + 1) / 2);
            assert(digests_view(next@) =~= next_level(cur));
            assert(root_of(cur) == root_of(next_level(cur)));
        }
        level = next;
    }
    tree.root = level[0];
    proof {
        assert(digests_view(level@).len() == 1);
        assert(root_of(digests_view(level@)) == digests_view(level@)[0]);
        assert(tree.leaves_view() =~= old(tree).leaves_view().push(keccak_of(data@)));
    }
}

/// The height of the accumulator's tree, derived from the leaf count alone:
/// 0 for 0 or 1 leaves, else the number of pairwise halvings (rounding up)
/// until one node is left.
pub fn depth(tree: &MTree) -> (d: usize)
    ensures
        d == depth_of(tree.leaves@.len() as nat),
{
    let leaf_count: usize = tree.leaves.len();
    if leaf_count == 0 {
        return 0;
    }
    let mut d: usize = 0;
    let mut nodes: usize = leaf_count;
    while nodes > 1
        invariant
            1 <= nodes <= leaf_count,
            d + nodes <= leaf_count,
            depth_of(leaf_count as nat) == d + depth_of(nodes as nat),
        decreases nodes,
    {
        let halved: usize = nodes / 2 + nodes % 2;
        proof {
            assert(halved == (nodes + 1) as nat / 2);
        }
        nodes = halved;
        d = d + 1;
    }
    d
}

} // verus!
