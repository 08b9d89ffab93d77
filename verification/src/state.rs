use vstd::prelude::*;
use crate::merkle::{digests_view, root_of};

verus! {

/// The persisted accumulator state: the root digest and the leaf digests in
/// insertion order.
#[derive(Clone, Debug, PartialEq, Eq)]
pub struct MTree {
    pub root: [u8; 32],
    pub leaves: Vec<[u8; 32]>,
}

impl MTree {
    /// The leaf digests as mathematical byte strings, in insertion order.
    pub open spec fn leaves_view(&self) -> Seq<Seq<u8>> {
        digests_view(self.leaves@)
    }

    /// A state is well formed when its root is the one derived from its
    /// leaves; for the empty state that is the all-zero digest.
    pub open spec fn wf(&self) -> bool {
        self.root@ == root_of(self.leaves_view())
    }

    /// The fresh state: all-zero root, no leaves.
    pub fn new() -> (t: MTree)
        ensures
            t.leaves@.len() == 0,
            t.root@ == crate::merkle::zero_digest(),
            t.leaves_view() == Seq::<Seq<u8>>::empty(),
            t.wf(),
    {
        let t = MTree { root: [0u8; 32], leaves: Vec::new() };
        proof {
            assert(t.root@ =~= crate::merkle::zero_digest());
            assert(t.leaves_view() =~= Seq::<Seq<u8>>::empty());
        }
        t
    }
}

} // verus!
