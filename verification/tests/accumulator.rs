use mtree::codec::{decode, encode, load_state};
use mtree::processor::Processor;
use mtree::{depth, insert_leaf, MTree, MTreeError, MTreeInstruction};

fn empty_tree() -> MTree {
    MTree { root: [0; 32], leaves: Vec::new() }
}

fn keccak(data: &[u8]) -> [u8; 32] {
    solana_program::keccak::hash(data).to_bytes()
}

fn parent(left: &[u8; 32], right: &[u8; 32]) -> [u8; 32] {
    let mut combined = Vec::with_capacity(64);
    combined.extend_from_slice(left);
    combined.extend_from_slice(right);
    keccak(&combined)
}

#[test]
fn test_insert_leaf() {
    // Create a new merkle tree
    let mut tree = empty_tree();

    // Insert a leaf
    let leaf_data = b"Test leaf";
    insert_leaf(&mut tree, leaf_data.as_slice());

    // Check that the leaf was added
    assert_eq!(tree.leaves.len(), 1);

    // Verify that the root is updated
    let expected_leaf_hash = keccak(leaf_data);
    assert_eq!(tree.root, expected_leaf_hash);
}

#[test]
fn test_multiple_leaves() {
    let mut tree = empty_tree();

    // Insert multiple leaves
    let leaf1 = b"Leaf 1";
    let leaf2 = b"Leaf 2";

    insert_leaf(&mut tree, leaf1.as_slice());
    let root_after_one = tree.root;

    insert_leaf(&mut tree, leaf2.as_slice());
    let root_after_two = tree.root;

    // Ensure root changes after adding second leaf
    assert_ne!(root_after_one, root_after_two);
    assert_eq!(tree.leaves.len(), 2);

    let hash1 = keccak(leaf1);
    let hash2 = keccak(leaf2);
    let expected_root = parent(&hash1, &hash2);

    assert_eq!(tree.root, expected_root);
}

#[test]
fn test_process_instruction() {
    // Set up storage for the accumulator state
    let mut data = vec![0; 10000];

    // Create instruction data
    let leaf_data = b"Test instruction";
    let instruction = MTreeInstruction::InsertLeaf { data: leaf_data.to_vec() };
    let instruction_data = instruction.encode();

    // Process the instruction
    let result = Processor::process(&instruction_data, &mut data);

    // Check the result
    assert!(result.is_ok());
}

#[test]
fn test_tree_with_odd_number_of_leaves() {
    let mut tree = empty_tree();

    // Insert three leaves
    let leaf1 = b"Leaf 1";
    let leaf2 = b"Leaf 2";
    let leaf3 = b"Leaf 3";

    insert_leaf(&mut tree, leaf1.as_slice());
    insert_leaf(&mut tree, leaf2.as_slice());
    insert_leaf(&mut tree, leaf3.as_slice());

    // Check that all leaves were added
    assert_eq!(tree.leaves.len(), 3);

    // Manually calculate what the root should be with 3 leaves
    let hash1 = keccak(leaf1);
    let hash2 = keccak(leaf2);
    let hash3 = keccak(leaf3);

    // First combine hash1 and hash2, then the result with the promoted hash3
    let parent1 = parent(&hash1, &hash2);
    let expected_root = parent(&parent1, &hash3);

    // Verify the result
    assert_eq!(tree.root, expected_root);
}

#[test]
fn test_empty_payload_leaf() {
    let mut tree = empty_tree();
    insert_leaf(&mut tree, &[]);
    assert_eq!(tree.leaves.len(), 1);
    assert_eq!(tree.root, keccak(&[]));
}

#[test]
fn test_depth_table() {
    // depth over 0,1,2,3,4,5,8 leaves must be 0,0,1,2,2,3,3, whatever the
    // payloads hold
    let table: [(usize, usize); 7] = [(0, 0), (1, 0), (2, 1), (3, 2), (4, 2), (5, 3), (8, 3)];
    for (count, expected) in table {
        let mut tree = empty_tree();
        for k in 0..count {
            insert_leaf(&mut tree, format!("payload {k}").as_bytes());
        }
        assert_eq!(depth(&tree), expected, "depth over {count} leaves");

        let mut other = empty_tree();
        for k in 0..count {
            insert_leaf(&mut other, &[k as u8; 3]);
        }
        assert_eq!(depth(&other), expected, "depth over {count} other leaves");
    }
}

#[test]
fn test_depth_monotone() {
    let mut tree = empty_tree();
    let mut last: usize = depth(&tree);
    for k in 0..9 {
        insert_leaf(&mut tree, format!("leaf {k}").as_bytes());
        let d: usize = depth(&tree);
        assert!(d >= last, "depth fell from {last} to {d} at {} leaves", k + 1);
        last = d;
    }
    assert_eq!(last, 4);
}

#[test]
fn test_codec_round_trip() {
    let mut tree = empty_tree();
    insert_leaf(&mut tree, b"one");
    insert_leaf(&mut tree, b"two");
    insert_leaf(&mut tree, b"three");
    let encoded = encode(&tree);
    assert_eq!(encoded.len(), 36 + 32 * 3);
    let decoded = decode(&encoded).expect("a fresh encoding decodes");
    assert_eq!(decoded, tree);

    let empty = empty_tree();
    let decoded_empty = decode(&encode(&empty)).expect("the empty encoding decodes");
    assert_eq!(decoded_empty, empty);
}

#[test]
fn test_encoding_layout() {
    let mut tree = empty_tree();
    insert_leaf(&mut tree, b"one");
    let encoded = encode(&tree);
    // 32 root bytes, 4-byte little-endian count, then the single leaf
    assert_eq!(encoded.len(), 68);
    assert_eq!(&encoded[0..32], &tree.root);
    assert_eq!(&encoded[32..36], &[1, 0, 0, 0]);
    assert_eq!(&encoded[36..68], &keccak(b"one"));
}

#[test]
fn test_decode_failure_fallback() {
    // Non-conforming bytes load as the fresh empty state, never a crash:
    // too short for the header
    let garbage = vec![7u8; 20];
    assert!(decode(&garbage).is_none());
    let t = load_state(&garbage);
    assert_eq!(t.root, [0; 32]);
    assert!(t.leaves.is_empty());

    // count prefix announces more leaves than the buffer holds
    let mut lying = vec![0u8; 40];
    lying[32] = 0xff;
    lying[33] = 0xff;
    assert!(decode(&lying).is_none());
    let t = load_state(&lying);
    assert_eq!(t.root, [0; 32]);
    assert!(t.leaves.is_empty());

    // empty input
    assert!(decode(&[]).is_none());
    let t = load_state(&[]);
    assert_eq!(t.root, [0; 32]);
    assert!(t.leaves.is_empty());
}

#[test]
fn test_trailing_bytes_ignored() {
    // The decoder is driven by the count prefix, not the buffer size: state
    // read back from a large buffer keeps accumulating across calls.
    let mut storage = vec![0u8; 10000];
    for k in 0..3 {
        let ins = MTreeInstruction::InsertLeaf { data: vec![k as u8; 8] };
        Processor::process(&ins.encode(), &mut storage).expect("the state fits");
    }
    assert_eq!(storage.len(), 10000);
    let tree = load_state(&storage);
    assert_eq!(tree.leaves.len(), 3);
    assert_eq!(depth(&tree), 2);
}

#[test]
fn test_capacity_guard() {
    // A buffer too small for even one leaf: the call fails with the needed
    // and available sizes and the buffer stays byte-for-byte unchanged.
    let mut storage = vec![0u8; 10];
    let before = storage.clone();
    let ins = MTreeInstruction::InsertLeaf { data: b"payload".to_vec() };
    let result = Processor::process(&ins.encode(), &mut storage);
    assert_eq!(result, Err(MTreeError::CapacityExceeded { needed: 68, available: 10 }));
    assert_eq!(storage, before);
}

#[test]
fn test_capacity_guard_after_commit() {
    // Room for exactly one leaf: the first insert commits, the second
    // aborts and leaves the first encoding in place.
    let mut storage = vec![0u8; 68];
    let first = MTreeInstruction::InsertLeaf { data: b"first".to_vec() };
    Processor::process(&first.encode(), &mut storage).expect("one leaf fits");
    let committed = storage.clone();

    let second = MTreeInstruction::InsertLeaf { data: b"second".to_vec() };
    let result = Processor::process(&second.encode(), &mut storage);
    assert_eq!(result, Err(MTreeError::CapacityExceeded { needed: 100, available: 68 }));
    assert_eq!(storage, committed);

    let tree = load_state(&storage);
    assert_eq!(tree.leaves.len(), 1);
    assert_eq!(tree.root, keccak(b"first"));
}

#[test]
fn test_instruction_round_trip() {
    let ins = MTreeInstruction::InsertLeaf { data: b"some payload".to_vec() };
    let bytes = ins.encode();
    assert_eq!(bytes[0], 0);
    assert_eq!(&bytes[1..5], &[12, 0, 0, 0]);
    let back = MTreeInstruction::decode(&bytes).expect("a fresh encoding decodes");
    assert_eq!(back, ins);
}

#[test]
fn test_instruction_decode_rejects() {
    // too short for tag and length
    assert!(MTreeInstruction::decode(&[]).is_none());
    assert!(MTreeInstruction::decode(&[0, 1, 0, 0]).is_none());
    // unknown tag
    assert!(MTreeInstruction::decode(&[1, 0, 0, 0, 0]).is_none());
    // announced length disagrees with the bytes that follow
    assert!(MTreeInstruction::decode(&[0, 2, 0, 0, 0, 9]).is_none());
    // trailing bytes
    assert!(MTreeInstruction::decode(&[0, 1, 0, 0, 0, 9, 9]).is_none());

    // a malformed instruction is surfaced and changes nothing
    let mut storage = vec![0u8; 10000];
    let before = storage.clone();
    let result = Processor::process(&[1, 2, 3], &mut storage);
    assert_eq!(result, Err(MTreeError::InstructionDecodeFailure));
    assert_eq!(storage, before);
}
