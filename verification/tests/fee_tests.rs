use cytah_core::block::Block;
use cytah_core::blockdag::BlockDAG;
use cytah_core::daa::{calculate_next_difficulty, next_difficulty};
use cytah_core::fee_market::next_base_fee;
use cytah_core::transaction::Transaction;

fn block_with(parents: Vec<[u8; 32]>, ts: u64, txs: usize, base_fee: u64, difficulty: u32) -> Block {
    let mut v = Vec::new();
    for i in 0..txs {
        v.push(Transaction::new([1u8; 20], [2u8; 20], 1, i as u64, 21000, base_fee + 1));
    }
    Block::new(parents, ts, v, 0, difficulty, base_fee, [0; 20], [0; 32])
}

#[test]
fn base_fee_starts_at_minimum_and_falls_after_light_blocks() {
    let mut dag = BlockDAG::new();
    assert_eq!(next_base_fee(&dag), 1);
    let g = block_with(vec![], 1000, 1, 100, 0);
    dag.insert_block(g).unwrap();
    assert_eq!(next_base_fee(&dag), 90);
}

#[test]
fn base_fee_rises_after_busy_block() {
    let mut dag = BlockDAG::new();
    let g = block_with(vec![], 1000, 501, 100, 0);
    dag.insert_block(g).unwrap();
    assert_eq!(next_base_fee(&dag), 110);
}

#[test]
fn difficulty_is_kept_for_short_histories() {
    assert_eq!(calculate_next_difficulty(&[]), 1);
    let b = block_with(vec![], 1000, 0, 0, 7);
    assert_eq!(calculate_next_difficulty(&[b]), 7);
    assert_eq!(next_difficulty(&BlockDAG::new()), 1);
}

#[test]
fn difficulty_follows_block_spacing() {
    let mut blocks = Vec::new();
    for i in 0..263u64 {
        blocks.push(block_with(vec![], 1000 + i, 0, 0, 100));
    }
    assert_eq!(calculate_next_difficulty(&blocks), 100);
    let mut fast = Vec::new();
    for _ in 0..263u64 {
        fast.push(block_with(vec![], 1000, 0, 0, 100));
    }
    assert_eq!(calculate_next_difficulty(&fast), 25);
    let mut slow = Vec::new();
    for i in 0..263u64 {
        slow.push(block_with(vec![], 1000 + 10 * i, 0, 0, 100));
    }
    assert_eq!(calculate_next_difficulty(&slow), 398);
}
