use vstd::prelude::*;
use vstd::bytes::{
    lemma_auto_spec_u32_to_from_le_bytes, spec_u32_from_le_bytes, spec_u32_to_le_bytes,
    u32_from_le_bytes, u32_to_le_bytes,
};
use vstd::slice::slice_subrange;
use crate::merkle::zero_digest;
use crate::state::MTree;

verus! {

/// Byte strings of exactly 32 bytes each.
pub open spec fn all_digests(ds: Seq<Seq<u8>>) -> bool {
    forall|i: int| 0 <= i < ds.len() ==> (#[trigger] ds[i]).len() == 32
}

/// The digests laid end to end, in order.
pub open spec fn concat_digests(ds: Seq<Seq<u8>>) -> Seq<u8>
    decreases ds.len(),
{
    if ds.len() == 0 {
        Seq::empty()
    } else {
        ds[0] + concat_digests(ds.drop_first())
    }
}

/// The binary encoding of a state: 32 root bytes, then a 4-byte
/// little-endian leaf count, then each 32-byte leaf digest in insertion
/// order, with no padding.
pub open spec fn encode_spec(root: Seq<u8>, leaves: Seq<Seq<u8>>) -> Seq<u8> {
    root + spec_u32_to_le_bytes(leaves.len() as u32) + concat_digests(leaves)
}

/// What decoding a buffer yields: the root and leaf digests read back from a
/// well-formed leading encoding, or nothing when the buffer is too short for
/// the root and count, or for the leaves the count announces. Bytes past the
/// encoding are ignored: the format is driven by the count prefix, not the
/// buffer size.
pub open spec fn decode_spec(bytes: Seq<u8>) -> Option<(Seq<u8>, Seq<Seq<u8>>)> {
    if bytes.len() < 36 {
        None
    } else {
        let n = spec_u32_from_le_bytes(bytes.subrange(32, 36)) as int;
        if bytes.len() < 36 + 32 * n {
            None
        } else {
            Some(
                (
                    bytes.subrange(0, 32),
                    Seq::new(n as nat, |i: int| bytes.subrange(36 + 32 * i, 36 + 32 * i + 32)),
                ),
            )
        }
    }
}

pub proof fn lemma_concat_digests_len(ds: Seq<Seq<u8>>)
    requires
        all_digests(ds),
    ensures
        concat_digests(ds).len() == 32 * ds.len(),
    decreases ds.len(),
{
    if ds.len() > 0 {
        let tail = ds.drop_first();
        assert forall|i: int| 0 <= i < tail.len() implies (#[trigger] tail[i]).len() == 32 by {
            assert(tail[i] == ds[i + 1]);
        }
        lemma_concat_digests_len(tail);
    }
}

/// The bytes of the `i`-th digest sit at offset `32 * i` of the
/// concatenation.
pub proof fn lemma_concat_digests_index(ds: Seq<Seq<u8>>, i: int)
    requires
        all_digests(ds),
        0 <= i < ds.len(),
    ensures
        concat_digests(ds).subrange(32 * i, 32 * i + 32) == ds[i],
    decreases i,
{
    lemma_concat_digests_len(ds);
    let tail = ds.drop_first();
    if i == 0 {
        assert(concat_digests(ds).subrange(0, 32) =~= ds[0]);
    } else {
        assert forall|k: int| 0 <= k < tail.len() implies (#[trigger] tail[k]).len() == 32 by {
            assert(tail[k] == ds[k + 1]);
        }
        lemma_concat_digests_index(tail, i - 1);
        lemma_concat_digests_len(tail);
        assert(tail[i - 1] == ds[i]);
        assert(concat_digests(ds).subrange(32 * i, 32 * i + 32) =~= concat_digests(
            tail,
        ).subrange(32 * (i - 1), 32 * (i - 1) + 32));
    }
}

/// Concatenating one more digest appends its bytes.
pub proof fn lemma_concat_digests_snoc(ds: Seq<Seq<u8>>, i: int)
    requires
        0 <= i < ds.len(),
    ensures
        concat_digests(ds.subrange(0, i + 1)) == concat_digests(ds.subrange(0, i)) + ds[i],
    decreases i,
{
    if i == 0 {
        let one = ds.subrange(0, 1);
        assert(one.drop_first() =~= Seq::<Seq<u8>>::empty());
        assert(concat_digests(one) == one[0] + concat_digests(one.drop_first()));
        assert(concat_digests(ds.subrange(0, 1)) =~= ds[0]);
        assert(concat_digests(ds.subrange(0, 0)) + ds[0] =~= ds[0]);
    } else {
        let tail = ds.drop_first();
        lemma_concat_digests_snoc(tail, i - 1);
        let a = ds.subrange(0, i + 1);
        let b = ds.subrange(0, i);
        assert(a.drop_first() =~= tail.subrange(0, i));
        assert(b.drop_first() =~= tail.subrange(0, i - 1));
        assert(concat_digests(a) == a[0] + concat_digests(tail.subrange(0, i)));
        assert(concat_digests(b) == b[0] + concat_digests(tail.subrange(0, i - 1)));
        assert(tail[i - 1] == ds[i]);
        assert(ds[0] + (concat_digests(tail.subrange(0, i - 1)) + ds[i]) =~= (ds[0]
            + concat_digests(tail.subrange(0, i - 1))) + ds[i]);
    }
}

/// Appends the 32 bytes of a digest to a byte vector.
pub(crate) fn push_digest(out: &mut Vec<u8>, d: &[u8; 32])
    ensures
        final(out)@ == old(out)@ + d@,
{
    let mut j: usize = 0;
    while j < 32
        invariant
            j <= 32,
            out@ =~= old(out)@ + d@.subrange(0, j as int),
        decreases 32 - j,
    {
        out.push(d[j]);
        j = j + 1;
    }
    proof {
        assert(d@.subrange(0, 32) =~= d@);
    }
}

/// Reads the 32 bytes at offset `at` into a digest array.
fn read_digest(bytes: &[u8], at: usize) -> (d: [u8; 32])
    requires
        at + 32 <= bytes@.len(),
    ensures
        d@ == bytes@.subrange(at as int, at as int + 32),
{
    let blen: usize = bytes.len();
    let mut d: [u8; 32] = [0u8; 32];
    let mut j: usize = 0;
    while j < 32
        invariant
            j <= 32,
            at + 32 <= bytes@.len(),
            bytes@.len() == blen,
            forall|k: int| 0 <= k < j ==> d@[k] == bytes@[at + k],
        decreases 32 - j,
    {
        d[j] = bytes[at + j];
        j = j + 1;
    }
    proof {
        assert(d@ =~= bytes@.subrange(at as int, at as int + 32));
    }
    d
}

/// Encodes a state into a fresh byte vector. The leaf count must fit the
/// 4-byte prefix, and the encoding must fit in memory.
pub fn encode(tree: &MTree) -> (out: Vec<u8>)
    requires
        tree.leaves@.len() <= u32::MAX,
        36 + 32 * tree.leaves@.len() <= usize::MAX,
    ensures
        out@ == encode_spec(tree.root@, tree.leaves_view()),
        out@.len() == 36 + 32 * tree.leaves@.len(),
{
    proof {
        lemma_auto_spec_u32_to_from_le_bytes();
    }
    let mut out: Vec<u8> = Vec::new();
    push_digest(&mut out, &tree.root);
    let mut lenb: Vec<u8> = u32_to_le_bytes(tree.leaves.len() as u32);
    out.append(&mut lenb);
    let ghost header: Seq<u8> = out@;
    proof {
        assert(header =~= tree.root@ + spec_u32_to_le_bytes(tree.leaves@.len() as u32));
    }
    let mut i: usize = 0;
    while i < tree.leaves.len()
        invariant
            i <= tree.leaves@.len(),
            header == tree.root@ + spec_u32_to_le_bytes(tree.leaves@.len() as u32),
            out@ == header + concat_digests(tree.leaves_view().subrange(0, i as int)),
        decreases tree.leaves@.len() - i,
    {
        let d: [u8; 32] = tree.leaves[i];
        push_digest(&mut out, &d);
        proof {
            lemma_concat_digests_snoc(tree.leaves_view(), i as int);
            assert(tree.leaves_view()[i as int] == d@);
            assert(out@ =~= header + concat_digests(tree.leaves_view().subrange(0, i + 1)));
        }
        i = i + 1;
    }
    proof {
        assert(tree.leaves_view().subrange(0, tree.leaves@.len() as int) =~= tree.leaves_view());
        lemma_all_digests_of_view(tree.leaves@);
        lemma_concat_digests_len(tree.leaves_view());
        assert(out@ =~= encode_spec(tree.root@, tree.leaves_view()));
    }
    out
}

/// Every digest in a level's view is 32 bytes long.
pub proof fn lemma_all_digests_of_view(level: Seq<[u8; 32]>)
    ensures
        all_digests(crate::merkle::digests_view(level)),
{
    let dv = crate::merkle::digests_view(level);
    assert forall|i: int| 0 <= i < dv.len() implies (#[trigger] dv[i]).len() == 32 by {
        assert(dv[i] == level[i]@);
    }
}

/// Decodes the leading bytes of a buffer into a state. Fails exactly when
/// the buffer is too short for the root and count, or for the leaves the
/// count announces; bytes past the encoding are ignored. A decoded state is
/// read back verbatim: its root is not checked against its leaves.
pub fn decode(bytes: &[u8]) -> (r: Option<MTree>)
    ensures
        match r {
            Some(t) => decode_spec(bytes@) == Some((t.root@, t.leaves_view())),
            None => decode_spec(bytes@) is None,
        },
{
    if bytes.len() < 36 {
        return None;
    }
    let root: [u8; 32] = read_digest(bytes, 0);
    let count_bytes: &[u8] = slice_subrange(bytes, 32, 36);
    let count: u32 = u32_from_le_bytes(count_bytes);
    let n: usize = count as usize;
    let avail: usize = bytes.len() - 36;
    if n > avail / 32 {
        proof {
            assert(32 * (avail / 32) <= avail) by (nonlinear_arith);
            assert(bytes@.len() < 36 + 32 * (n as int));
        }
        return None;
    }
    proof {
        assert(32 * (n as int) <= 32 * (avail / 32)) by (nonlinear_arith)
            requires n <= avail / 32;
        assert(32 * (avail / 32) <= avail) by (nonlinear_arith);
    }
    let mut leaves: Vec<[u8; 32]> = Vec::new();
    let mut i: usize = 0;
    while i < n
        invariant
            i <= n,
            36 + 32 * (n as int) <= bytes@.len(),
            bytes@.len() <= usize::MAX,
            leaves@.len() == i,
            forall|k: int|
                0 <= k < i ==> (#[trigger] leaves@[k])@ == bytes@.subrange(
                    36 + 32 * k,
                    36 + 32 * k + 32,
                ),
        decreases n - i,
    {
        proof {
            assert(32 * (i as int) + 32 <= 32 * (n as int)) by (nonlinear_arith)
                requires i < n;
        }
        let d: [u8; 32] = read_digest(bytes, 36 + 32 * i);
        leaves.push(d);
        i = i + 1;
    }
    let t = MTree { root, leaves };
    proof {
        let view = Seq::new(n as nat, |k: int| bytes@.subrange(36 + 32 * k, 36 + 32 * k + 32));
        assert(t.leaves_view() =~= view);
        assert(t.root@ =~= bytes@.subrange(0, 32));
    }
    Some(t)
}

/// Loads a state from a storage buffer, falling back to the fresh empty
/// state when the bytes do not decode. First use and corrupt storage are
/// indistinguishable, by design: neither is an error.
pub fn load_state(bytes: &[u8]) -> (t: MTree)
    ensures
        match decode_spec(bytes@) {
            Some(p) => t.root@ == p.0 && t.leaves_view() == p.1,
            None => t.root@ == zero_digest() && t.leaves_view() == Seq::<Seq<u8>>::empty(),
        },
{
    match decode(bytes) {
        Some(t) => t,
        None => MTree::new(),
    }
}

/// Round trip: decoding an encoded state yields the state back, for any
/// valid root (32 bytes) and leaf digests (32 bytes each, count fitting the
/// 4-byte prefix).
pub proof fn lemma_codec_round_trip(root: Seq<u8>, leaves: Seq<Seq<u8>>)
    requires
        root.len() == 32,
        all_digests(leaves),
        leaves.len() <= u32::MAX,
    ensures
        decode_spec(encode_spec(root, leaves)) == Some((root, leaves)),
{
    lemma_auto_spec_u32_to_from_le_bytes();
    lemma_concat_digests_len(leaves);
    let e = encode_spec(root, leaves);
    let lenb = spec_u32_to_le_bytes(leaves.len() as u32);
    assert(lenb.len() == 4);
    assert(e.len() == 36 + 32 * leaves.len());
    assert(e.subrange(32, 36) =~= lenb);
    assert(e.subrange(0, 32) =~= root);
    let n = leaves.len() as int;
    assert(spec_u32_from_le_bytes(e.subrange(32, 36)) as int == n);
    let got = Seq::new(n as nat, |i: int| e.subrange(36 + 32 * i, 36 + 32 * i + 32));
    assert forall|i: int| 0 <= i < n implies got[i] == leaves[i] by {
        lemma_concat_digests_index(leaves, i);
        assert(e.subrange(36 + 32 * i, 36 + 32 * i + 32) =~= concat_digests(leaves).subrange(
            32 * i,
            32 * i + 32,
        ));
    }
    assert(got =~= leaves);
}

} // verus!
