//! The block tree's observable behaviour: genesis, deferred admission,
//! draining, finalization idempotence, pruning and monotone indices.

use concordium_node::block::{Block, PendingBlock};
use concordium_node::finalization::{FinalizationProof, FinalizationRecord};
use concordium_node::tree::{BlockPtr, BlockStatus, SkovData, SkovError};


fn defer_of(
    r: Result<Option<(BlockPtr, BlockStatus)>, SkovError>,
) -> SkovError {
    match r {
        Ok(_) => panic!("admitted unexpectedly"),
        Err(e) => e,
    }
}

fn mk_block(slot: u64, parent: &[u8], last_finalized: &[u8], baker_id: u64) -> Block {
    Block {
        slot,
        pointer: parent.to_vec(),
        baker_id,
        proof: vec![1u8; 96],
        nonce: vec![2u8; 96],
        last_finalized: last_finalized.to_vec(),
        data: vec![0u8; 8],
        signature: vec![3u8; 64],
    }
}

fn genesis_skov() -> (SkovData, Vec<u8>) {
    let mut skov = SkovData::new();
    let genesis_block = mk_block(0, &[0u8; 32], &[0u8; 32], 0);
    let genesis_pb = PendingBlock::from_block(genesis_block);
    let genesis_hash = genesis_pb.hash.clone();
    let ptr = BlockPtr {
        hash: genesis_pb.hash,
        block: genesis_pb.block,
        parent_idx: 0,
        last_finalized_idx: 0,
        height: 0,
        received_at: 0,
    };
    assert!(skov.add_genesis(ptr).is_ok());
    (skov, genesis_hash)
}

fn record_for(hash: &[u8], index: u64) -> FinalizationRecord {
    FinalizationRecord {
        index,
        block_pointer: hash.to_vec(),
        proof: FinalizationProof(Vec::new()),
        delay: 0,
    }
}

#[test]
fn genesis_anchors_the_tree() {
    let (skov, genesis_hash) = genesis_skov();
    assert_eq!(skov.get_last_finalized().hash, genesis_hash);
    assert_eq!(skov.get_next_finalization_index(), 1);
    assert_eq!(skov.block_tree.len(), 1);
    assert_eq!(skov.block_statuses, vec![BlockStatus::Finalized]);
    assert_eq!(skov.get_last_finalized_height(), 0);
    assert_eq!(skov.get_last_finalized_slot(), 0);
}

#[test]
fn genesis_reinsertion_is_refused() {
    let (mut skov, _genesis_hash) = genesis_skov();
    let other = mk_block(0, &[9u8; 32], &[9u8; 32], 0);
    let pb = PendingBlock::from_block(other);
    let ptr = BlockPtr {
        hash: pb.hash,
        block: pb.block,
        parent_idx: 0,
        last_finalized_idx: 0,
        height: 0,
        received_at: 0,
    };
    assert_eq!(match skov.add_genesis(ptr) { Ok(_) => panic!("reinserted genesis"), Err(e) => e }, SkovError::AlreadyInitialized);
    assert_eq!(skov.block_tree.len(), 1);
}

#[test]
fn orphan_is_queued_then_admitted() {
    let (mut skov, genesis_hash) = genesis_skov();
    let block_b = mk_block(1, &genesis_hash, &genesis_hash, 1);
    let pb_b = PendingBlock::from_block(block_b);
    let hash_b = pb_b.hash.clone();
    let block_c = mk_block(2, &hash_b, &genesis_hash, 2);
    let pb_c = PendingBlock::from_block(block_c);
    let hash_c = pb_c.hash.clone();

    // C first: its parent B is unknown, so it waits under B's hash.
    assert_eq!(defer_of(skov.add_block(pb_c)), SkovError::AwaitingParent);
    assert_eq!(skov.orphan_blocks.len(), 1);
    assert_eq!(skov.orphan_blocks[0].0, hash_b);
    assert_eq!(skov.orphan_blocks[0].1.len(), 1);
    assert_eq!(skov.orphan_blocks[0].1[0].hash, hash_c);
    assert!(skov.get_block_by_hash(&hash_c).is_none());

    // B arrives: both B and the re-offered C join the tree.
    assert!(skov.add_block(pb_b).is_ok());
    assert!(skov.get_block_by_hash(&hash_b).is_some());
    assert!(skov.get_block_by_hash(&hash_c).is_some());
    assert!(skov.orphan_blocks.is_empty());
    assert_eq!(skov.get_block_by_hash(&hash_b).unwrap().height, 1);
    assert_eq!(skov.get_block_by_hash(&hash_c).unwrap().height, 2);
    assert_eq!(skov.get_block_status(&hash_c), Some(BlockStatus::Alive));
}

#[test]
fn stale_last_finalized_is_queued() {
    let (mut skov, genesis_hash) = genesis_skov();
    let old_hash = vec![8u8; 32];
    let block_d = mk_block(1, &genesis_hash, &old_hash, 1);
    let pb_d = PendingBlock::from_block(block_d);
    let hash_d = pb_d.hash.clone();
    assert_eq!(defer_of(skov.add_block(pb_d)), SkovError::AwaitingLastFinalized);
    assert_eq!(skov.awaiting_last_finalized.len(), 1);
    assert_eq!(skov.awaiting_last_finalized[0].0, old_hash);
    assert_eq!(skov.awaiting_last_finalized[0].1.len(), 1);
    assert_eq!(skov.awaiting_last_finalized[0].1[0].hash, hash_d);
    assert!(skov.get_block_by_hash(&hash_d).is_none());
}

#[test]
fn finalization_finalizes_and_prunes_siblings() {
    let (mut skov, genesis_hash) = genesis_skov();
    let block_x = mk_block(1, &genesis_hash, &genesis_hash, 1);
    let block_y = mk_block(2, &genesis_hash, &genesis_hash, 2);
    let pb_x = PendingBlock::from_block(block_x);
    let pb_y = PendingBlock::from_block(block_y);
    let hash_x = pb_x.hash.clone();
    let hash_y = pb_y.hash.clone();
    assert!(skov.add_block(pb_x).is_ok());
    assert!(skov.add_block(pb_y).is_ok());
    assert_eq!(skov.get_block_status(&hash_x), Some(BlockStatus::Alive));
    assert_eq!(skov.get_block_status(&hash_y), Some(BlockStatus::Alive));

    assert!(skov.add_finalization(record_for(&hash_x, 1)));
    assert_eq!(skov.get_block_status(&hash_x), Some(BlockStatus::Finalized));
    assert_eq!(skov.get_block_status(&hash_y), Some(BlockStatus::Dead));
    assert_eq!(skov.get_last_finalized().hash, hash_x);
    assert_eq!(skov.get_next_finalization_index(), 2);
}

#[test]
fn finalization_is_idempotent() {
    let (mut skov, genesis_hash) = genesis_skov();
    let block_x = mk_block(1, &genesis_hash, &genesis_hash, 1);
    let pb_x = PendingBlock::from_block(block_x);
    let hash_x = pb_x.hash.clone();
    assert!(skov.add_block(pb_x).is_ok());

    assert!(skov.add_finalization(record_for(&hash_x, 1)));
    let len_after_first = skov.finalization_list.len();
    assert!(!skov.add_finalization(record_for(&hash_x, 1)));
    assert_eq!(skov.finalization_list.len(), len_after_first);
}

#[test]
fn conflicting_index_is_rejected() {
    let (mut skov, genesis_hash) = genesis_skov();
    let block_x = mk_block(1, &genesis_hash, &genesis_hash, 1);
    let block_y = mk_block(2, &genesis_hash, &genesis_hash, 2);
    let pb_x = PendingBlock::from_block(block_x);
    let pb_y = PendingBlock::from_block(block_y);
    let hash_x = pb_x.hash.clone();
    let hash_y = pb_y.hash.clone();
    assert!(skov.add_block(pb_x).is_ok());
    assert!(skov.add_block(pb_y).is_ok());
    assert!(skov.add_finalization(record_for(&hash_x, 1)));
    // a second record at index one names a different block: first one wins
    assert!(!skov.add_finalization(record_for(&hash_y, 1)));
    assert_eq!(skov.get_last_finalized().hash, hash_x);
}

#[test]
fn finalized_index_is_monotone() {
    let (mut skov, genesis_hash) = genesis_skov();
    let block_x = mk_block(1, &genesis_hash, &genesis_hash, 1);
    let pb_x = PendingBlock::from_block(block_x);
    let hash_x = pb_x.hash.clone();
    assert!(skov.add_block(pb_x).is_ok());
    let before = skov.get_next_finalization_index();
    assert!(skov.add_finalization(record_for(&hash_x, 5)));
    let after = skov.get_next_finalization_index();
    assert!(after >= before);
    assert_eq!(after, 6);
}

#[test]
fn block_awaiting_finalization_is_drained_on_admission() {
    let (mut skov, genesis_hash) = genesis_skov();
    let block_x = mk_block(1, &genesis_hash, &genesis_hash, 1);
    let pb_x = PendingBlock::from_block(block_x);
    let hash_x = pb_x.hash.clone();
    assert!(skov.add_block(pb_x).is_ok());

    // E names X as its last finalized block before X is finalized: it waits.
    let block_e = mk_block(3, &hash_x, &hash_x, 2);
    let pb_e = PendingBlock::from_block(block_e);
    let hash_e = pb_e.hash.clone();
    assert_eq!(defer_of(skov.add_block(pb_e)), SkovError::AwaitingLastFinalized);
    assert_eq!(skov.awaiting_last_finalized.len(), 1);

    // Once X is finalized, E is re-offered and admitted.
    assert!(skov.add_finalization(record_for(&hash_x, 1)));
    assert!(skov.get_block_by_hash(&hash_e).is_some());
    assert!(skov.awaiting_last_finalized.is_empty());
    assert_eq!(skov.get_block_status(&hash_e), Some(BlockStatus::Alive));
}

#[test]
fn readding_a_known_block_is_a_no_op() {
    let (mut skov, genesis_hash) = genesis_skov();
    let block_x = mk_block(1, &genesis_hash, &genesis_hash, 1);
    let pb1 = PendingBlock::from_block(mk_block(1, &genesis_hash, &genesis_hash, 1));
    let pb2 = PendingBlock::from_block(block_x);
    assert_eq!(pb1.hash, pb2.hash);
    assert!(skov.add_block(pb1).is_ok());
    let tree_len = skov.block_tree.len();
    assert!(matches!(skov.add_block(pb2), Ok(None)));
    assert_eq!(skov.block_tree.len(), tree_len);
}
