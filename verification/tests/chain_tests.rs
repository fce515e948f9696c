//! Tests of the chain assembler: attachment, forks, pruning, orphans.

use blk_reader::BlockId;
use blk_reader::Chain;
use blk_reader::GetBlockIds;
use blk_reader::LazyBlock;

/// The 32 raw bytes of an identifier, little-endian per 64-bit word.
fn id_bytes(id: &BlockId) -> [u8; 32] {
    let mut b = [0u8; 32];
    b[0..8].copy_from_slice(&id.w0.to_le_bytes());
    b[8..16].copy_from_slice(&id.w1.to_le_bytes());
    b[16..24].copy_from_slice(&id.w2.to_le_bytes());
    b[24..32].copy_from_slice(&id.w3.to_le_bytes());
    b
}

/// An 80-byte header with the given parent bytes and nonce.
fn mk_header(prev: &[u8; 32], nonce: u32) -> Vec<u8> {
    let mut h = vec![0u8; 80];
    h[0..4].copy_from_slice(&1u32.to_le_bytes());
    h[4..36].copy_from_slice(prev);
    h[68..72].copy_from_slice(&1231006505u32.to_le_bytes());
    h[76..80].copy_from_slice(&nonce.to_le_bytes());
    h
}

/// A block whose parent's raw identifier bytes are `prev`; the nonce keeps
/// the identifiers distinct.
fn mk_block(prev: &[u8; 32], nonce: u32) -> LazyBlock {
    LazyBlock::new(
        mk_header(prev, nonce),
        Vec::new(),
        String::from("blk00000.dat"),
        0,
        0,
    )
}

/// A child of the given block.
fn child_of(parent: &LazyBlock, nonce: u32) -> LazyBlock {
    mk_block(&id_bytes(&parent.get_block_id()), nonce)
}

#[test]
fn test_chain() {
    // the string-id harness of the original, adapted to hashed identifiers:
    // the genesis sentinel is the all-zero id
    let genesis = [0u8; 32];
    let mut chain = Chain::new(BlockId::all_zeros());

    let block1 = mk_block(&genesis, 1);
    let block2 = child_of(&block1, 2);
    let block3 = child_of(&block2, 3); // "3a"
    let block4 = child_of(&block3, 4);
    let block3b = child_of(&block2, 5); // "3b", sibling fork of 3a
    let block5 = child_of(&block4, 6);

    let id1 = block1.get_block_id();
    let id2 = block2.get_block_id();
    let id5 = block5.get_block_id();

    chain.insert(block1);
    chain.insert(block2);
    chain.insert(block3);
    chain.insert(block4);
    chain.insert(block3b);
    chain.insert(block5);

    assert_eq!(chain.orphans(), 0);
    assert_eq!(chain.longest_chain_depth(), 5);

    let block = chain.pop_head();
    assert_eq!(block.unwrap().get_block_id(), id1);
    assert_eq!(chain.longest_chain_depth(), 4);

    let block = chain.pop_head();
    assert_eq!(block.unwrap().get_block_id(), id2);
    assert_eq!(chain.longest_chain_depth(), 3);

    // Insert orphan: "7" waits on the unseen "6"
    let block6 = mk_block(&id_bytes(&id5), 7);
    let block7 = child_of(&block6, 8);
    chain.insert(block7);
    assert_eq!(chain.orphans(), 1);
    assert_eq!(chain.longest_chain_depth(), 3);

    // Insert orphan parent: "6" attaches and resolves "7"
    chain.insert(block6);
    assert_eq!(chain.orphans(), 0);
    assert_eq!(chain.longest_chain_depth(), 5);
}

#[test]
fn late_parent_attaches() {
    // out-of-order delivery: 7 then 6 arrive before 1..5
    let genesis = [0u8; 32];
    let b1 = mk_block(&genesis, 1);
    let b2 = child_of(&b1, 2);
    let b3 = child_of(&b2, 3);
    let b4 = child_of(&b3, 4);
    let b5 = child_of(&b4, 5);
    let b6 = child_of(&b5, 6);
    let b7 = child_of(&b6, 7);
    let ids: Vec<BlockId> = [&b1, &b2, &b3, &b4, &b5, &b6, &b7]
        .iter()
        .map(|b| b.get_block_id())
        .collect();

    let mut chain = Chain::new(BlockId::all_zeros());
    chain.insert(b7);
    chain.insert(b6);
    assert_eq!(chain.orphans(), 2);
    assert_eq!(chain.longest_chain_depth(), 0);
    chain.insert(b1);
    chain.insert(b2);
    chain.insert(b3);
    chain.insert(b4);
    chain.insert(b5);
    assert_eq!(chain.orphans(), 0);
    assert_eq!(chain.longest_chain_depth(), 7);

    // popping emits 1..7 in order
    for expected in ids.iter() {
        let got = chain.pop_head().unwrap();
        assert_eq!(got.get_block_id(), *expected);
    }
    assert!(chain.pop_head().is_none());
    assert_eq!(chain.longest_chain_depth(), 0);
}

#[test]
fn pruned_fork_never_reappears() {
    // two siblings below head: only the deeper branch survives the pop
    let genesis = [0u8; 32];
    let b1 = mk_block(&genesis, 1);
    let b2a = child_of(&b1, 2);
    let b2b = child_of(&b1, 3);
    let b3a = child_of(&b2a, 4);
    let id2a = b2a.get_block_id();
    let id1 = b1.get_block_id();

    let mut chain = Chain::new(BlockId::all_zeros());
    chain.insert(b1);
    chain.insert(b2a);
    chain.insert(b2b);
    chain.insert(b3a);
    assert_eq!(chain.longest_chain_depth(), 3);

    let popped = chain.pop_head().unwrap();
    assert_eq!(popped.get_block_id(), id1);
    // the loser 2b is gone; the survivor chain is 2a -> 3a
    assert_eq!(chain.longest_chain_depth(), 2);
    let popped = chain.pop_head().unwrap();
    assert_eq!(popped.get_block_id(), id2a);
}

#[test]
fn same_missing_parent_replaces() {
    // two orphans waiting on the same missing parent: the second replaces
    // the first
    let genesis = [0u8; 32];
    let b1 = mk_block(&genesis, 1);
    let o1 = child_of(&b1, 2);
    let o2 = child_of(&b1, 3);
    let id_o2 = o2.get_block_id();

    let mut chain = Chain::new(BlockId::all_zeros());
    chain.insert(o1);
    chain.insert(o2);
    assert_eq!(chain.orphans(), 1);

    chain.insert(b1);
    assert_eq!(chain.orphans(), 0);
    assert_eq!(chain.longest_chain_depth(), 2);
    chain.pop_head().unwrap();
    let survivor = chain.pop_head().unwrap();
    assert_eq!(survivor.get_block_id(), id_o2);
}
