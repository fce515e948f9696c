//! Tests of the reader state: confirmation-depth draining, caps, heights.

use blk_reader::BlockId;
use blk_reader::BlockReader;
use blk_reader::BlockReaderOptions;
use blk_reader::GetBlockIds;
use blk_reader::LazyBlock;

fn id_bytes(id: &BlockId) -> [u8; 32] {
    let mut b = [0u8; 32];
    b[0..8].copy_from_slice(&id.w0.to_le_bytes());
    b[8..16].copy_from_slice(&id.w1.to_le_bytes());
    b[16..24].copy_from_slice(&id.w2.to_le_bytes());
    b[24..32].copy_from_slice(&id.w3.to_le_bytes());
    b
}

fn mk_block(prev: &[u8; 32], nonce: u32) -> LazyBlock {
    let mut h = vec![0u8; 80];
    h[0..4].copy_from_slice(&1u32.to_le_bytes());
    h[4..36].copy_from_slice(prev);
    h[76..80].copy_from_slice(&nonce.to_le_bytes());
    LazyBlock::new(h, Vec::new(), String::from("blk00000.dat"), 0, 0)
}

/// A linear chain of `n` blocks starting at the all-zero sentinel.
fn linear_chain(n: u32) -> Vec<LazyBlock> {
    let mut out: Vec<LazyBlock> = Vec::new();
    let mut prev = [0u8; 32];
    for k in 0..n {
        let b = mk_block(&prev, k + 1);
        prev = id_bytes(&b.get_block_id());
        out.push(b);
    }
    out
}

#[test]
fn monotone_heights_with_ten_confirmations() {
    // eleven blocks in order: only the blocks with ten confirmations come
    // out, at heights 0 and 1, in order
    let blocks = linear_chain(11);
    let ids: Vec<BlockId> = blocks.iter().map(|b| b.get_block_id()).collect();

    let mut reader = BlockReader::new(BlockReaderOptions::default());
    let mut emitted: Vec<(LazyBlock, u32)> = Vec::new();
    for b in blocks {
        let out = reader.insert(b);
        emitted.extend(out);
    }
    assert_eq!(emitted.len(), 2);
    assert_eq!(emitted[0].1, 0);
    assert_eq!(emitted[1].1, 1);
    assert_eq!(emitted[0].0.get_block_id(), ids[0]);
    assert_eq!(emitted[1].0.get_block_id(), ids[1]);
    assert_eq!(reader.height(), 2);
    assert_eq!(reader.orphans(), 0);
    assert!(!reader.max_height_reached());
}

#[test]
fn max_blocks_cap_stops_emission() {
    // a cap of one block: the drain emits exactly one and stops
    let blocks = linear_chain(12);
    let options = BlockReaderOptions {
        max_blocks: Some(1),
        max_orphans: Some(10_000),
        max_blk_files: None,
    };
    let mut reader = BlockReader::new(options);
    let mut emitted: Vec<(LazyBlock, u32)> = Vec::new();
    for b in blocks {
        emitted.extend(reader.insert(b));
        if reader.max_height_reached() {
            break;
        }
    }
    assert_eq!(emitted.len(), 1);
    assert_eq!(emitted[0].1, 0);
    assert_eq!(reader.height(), 1);
    assert!(reader.max_height_reached());
}

#[test]
fn orphan_cap_reported() {
    // four blocks with distinct unknown parents against a cap of three:
    // the driver sees the cap after the third and inserts no fourth
    let options = BlockReaderOptions {
        max_blocks: None,
        max_orphans: Some(3),
        max_blk_files: None,
    };
    let mut reader = BlockReader::new(options);
    let orphans = vec![
        mk_block(&[1u8; 32], 1),
        mk_block(&[2u8; 32], 2),
        mk_block(&[3u8; 32], 3),
        mk_block(&[4u8; 32], 4),
    ];
    let mut inserted = 0;
    for b in orphans {
        if reader.max_orphans_reached() {
            break;
        }
        let out = reader.insert(b);
        assert!(out.is_empty());
        inserted += 1;
    }
    assert_eq!(inserted, 3);
    assert_eq!(reader.orphans(), 3);
    assert_eq!(reader.height(), 0);
    assert!(reader.max_orphans_reached());
}

#[test]
fn default_options() {
    let options = BlockReaderOptions::default();
    assert_eq!(options.max_blocks, Some(1_000));
    assert_eq!(options.max_orphans, Some(10_000));
    assert_eq!(options.max_blk_files, None);
}

#[test]
fn parent_emitted_immediately_before_child() {
    // every emitted block links to the one emitted just before it
    let blocks = linear_chain(30);
    let mut reader = BlockReader::new(BlockReaderOptions::default());
    let mut emitted: Vec<(LazyBlock, u32)> = Vec::new();
    for b in blocks {
        emitted.extend(reader.insert(b));
    }
    assert_eq!(emitted.len(), 21);
    for k in 1..emitted.len() {
        assert_eq!(
            emitted[k].0.get_block_prev_id(),
            emitted[k - 1].0.get_block_id()
        );
        assert_eq!(emitted[k].1, emitted[k - 1].1 + 1);
    }
}

#[test]
fn fork_loser_is_never_emitted() {
    // a two-block fork off block 3: the longer branch wins once it is ten
    // deep, and the loser never reaches the consumer
    let mut blocks = linear_chain(3);
    let loser = {
        let b3 = &blocks[2];
        let mut h = [0u8; 32];
        h.copy_from_slice(&id_bytes(&b3.get_block_id()));
        mk_block(&h, 1000)
    };
    let loser_id = loser.get_block_id();
    // extend the main branch well past the confirmation depth
    let mut prev = id_bytes(&blocks[2].get_block_id());
    for k in 0..20u32 {
        let b = mk_block(&prev, 100 + k);
        prev = id_bytes(&b.get_block_id());
        blocks.push(b);
    }

    let mut reader = BlockReader::new(BlockReaderOptions {
        max_blocks: None,
        max_orphans: None,
        max_blk_files: None,
    });
    let mut emitted: Vec<(LazyBlock, u32)> = Vec::new();
    for (k, b) in blocks.into_iter().enumerate() {
        emitted.extend(reader.insert(b));
        if k == 2 {
            // deliver the fork just after its parent
            emitted.extend(reader.insert(loser.clone()));
        }
    }
    assert_eq!(emitted.len(), 23 - 9);
    for (b, _) in emitted.iter() {
        assert_ne!(b.get_block_id(), loser_id);
    }
}
