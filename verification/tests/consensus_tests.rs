use cytah_core::block::Block;
use cytah_core::blockdag::BlockDAG;
use cytah_core::blue_set::BlueSet;
use cytah_core::ghostdag::GHOSTDAGEngine;
use cytah_core::hashing::BlockHash;
use cytah_core::transaction::Transaction;

fn create_test_block(hash_seed: &str, parents: Vec<BlockHash>) -> Block {
    let seed_bytes = hash_seed.as_bytes();
    let mut from: [u8; 20] = [1; 20];
    let mut to: [u8; 20] = [2; 20];
    for (i, &b) in seed_bytes.iter().take(20).enumerate() {
        from[i] = from[i].wrapping_add(b);
    }
    for (i, &b) in seed_bytes.iter().skip(20).take(20).enumerate() {
        to[i] = to[i].wrapping_add(b);
    }
    let amount = 100 + seed_bytes.len() as u64;
    let tx = Transaction::new(from, to, amount, 0, 21000, 1);
    Block::new(parents, 1000 + hash_seed.len() as u64, vec![tx], 42, 0, 0, [0; 20], [0; 32])
}

#[test]
fn test_build_blue_set_linear_chain() {
    let mut dag = BlockDAG::new();
    let genesis = create_test_block("genesis", vec![]);
    let child = create_test_block("child", vec![genesis.hash.clone()]);
    let grandchild = create_test_block("grandchild", vec![child.hash.clone()]);
    dag.insert_block(genesis.clone()).unwrap();
    dag.insert_block(child.clone()).unwrap();
    dag.insert_block(grandchild.clone()).unwrap();
    let blue_set = BlueSet::new(1);
    let blue_blocks = blue_set.build_blue_set(&dag, &grandchild.hash);
    assert!(blue_blocks.contains(&genesis.hash));
    assert!(blue_blocks.contains(&child.hash));
    assert!(blue_blocks.contains(&grandchild.hash));
}

#[test]
fn test_blue_set_with_branches() {
    let mut dag = BlockDAG::new();
    let genesis = create_test_block("genesis", vec![]);
    let branch1 = create_test_block("branch1", vec![genesis.hash.clone()]);
    let branch2 = create_test_block("branch2", vec![genesis.hash.clone()]);
    let merge = create_test_block("merge", vec![branch1.hash.clone(), branch2.hash.clone()]);
    dag.insert_block(genesis).unwrap();
    dag.insert_block(branch1.clone()).unwrap();
    dag.insert_block(branch2).unwrap();
    dag.insert_block(merge.clone()).unwrap();
    let blue_set = BlueSet::new(2);
    let blue_blocks = blue_set.get_blue_blocks(&dag, &merge.hash);
    assert!(blue_blocks.len() >= 2);
}

#[test]
fn test_is_blue_simple() {
    let mut dag = BlockDAG::new();
    let genesis = create_test_block("genesis", vec![]);
    let child = create_test_block("child", vec![genesis.hash.clone()]);
    dag.insert_block(genesis.clone()).unwrap();
    dag.insert_block(child.clone()).unwrap();
    let blue_set = BlueSet::new(1);
    assert!(blue_set.is_blue(&dag, &genesis.hash, &child.hash));
    assert!(blue_set.is_blue(&dag, &child.hash, &child.hash));
}

#[test]
fn test_anticone_size_calculation() {
    let mut dag = BlockDAG::new();
    let genesis = create_test_block("genesis", vec![]);
    let branch1 = create_test_block("branch1", vec![genesis.hash.clone()]);
    let branch2 = create_test_block("branch2", vec![genesis.hash.clone()]);
    dag.insert_block(genesis).unwrap();
    dag.insert_block(branch1.clone()).unwrap();
    dag.insert_block(branch2.clone()).unwrap();
    let blue_set = BlueSet::new(5);
    let anticone_size = blue_set.get_anticone_size(&dag, &branch1.hash, &branch2.hash);
    assert!(anticone_size <= 10);
}

#[test]
fn test_blue_set_statistics() {
    let mut dag = BlockDAG::new();
    let genesis = create_test_block("genesis", vec![]);
    let child = create_test_block("child", vec![genesis.hash.clone()]);
    let child_hash = child.hash.clone();
    dag.insert_block(genesis).unwrap();
    dag.insert_block(child).unwrap();
    let blue_set = BlueSet::new(1);
    let total_blocks = dag.block_count();
    let blue_count = blue_set.count_blue_blocks(&dag, &child_hash);
    let blue_ratio = if total_blocks > 0 { blue_count as f64 / total_blocks as f64 } else { 0.0 };
    assert_eq!(total_blocks, 2);
    assert!(blue_count > 0);
    assert!(blue_ratio > 0.0);
}

#[test]
fn test_all_ancestors_blue() {
    let mut dag = BlockDAG::new();
    let genesis = create_test_block("genesis", vec![]);
    let child = create_test_block("child", vec![genesis.hash.clone()]);
    let grandchild = create_test_block("grandchild", vec![child.hash.clone()]);
    dag.insert_block(genesis).unwrap();
    dag.insert_block(child).unwrap();
    dag.insert_block(grandchild.clone()).unwrap();
    let blue_set = BlueSet::new(10);
    let result = blue_set.are_all_ancestors_blue(&dag, &grandchild.hash, &grandchild.hash);
    assert!(result);
}

#[test]
fn blue_and_red_counts_cover_the_dag() {
    let mut dag = BlockDAG::new();
    let genesis = create_test_block("genesis", vec![]);
    let a = create_test_block("a", vec![genesis.hash.clone()]);
    let b = create_test_block("b", vec![genesis.hash.clone()]);
    let c = create_test_block("c", vec![a.hash.clone()]);
    dag.insert_block(genesis).unwrap();
    dag.insert_block(a).unwrap();
    dag.insert_block(b.clone()).unwrap();
    dag.insert_block(c.clone()).unwrap();
    let blue_set = BlueSet::new(0);
    let blue = blue_set.count_blue_blocks(&dag, &b.hash);
    let red = blue_set.count_red_blocks(&dag, &b.hash);
    assert_eq!(blue + red, dag.block_count());
    assert!(blue_set.get_red_blocks(&dag, &b.hash).contains(&c.hash));
}

#[test]
fn test_ghostdag_engine_creation() {
    let engine = GHOSTDAGEngine::new(3);
    assert_eq!(engine.k, 3);
    assert_eq!(engine.get_stats().cache_size, 0);
}

#[test]
fn test_attach_dag() {
    let mut engine = GHOSTDAGEngine::new(3);
    let dag = BlockDAG::new();
    engine.attach_dag(dag);
    assert!(engine.get_dag().is_some());
}

#[test]
fn test_blue_score_calculation() {
    let mut engine = GHOSTDAGEngine::new(2);
    let mut dag = BlockDAG::new();
    let genesis = create_test_block("genesis", vec![]);
    let child = create_test_block("child", vec![genesis.hash.clone()]);
    dag.insert_block(genesis.clone()).unwrap();
    dag.insert_block(child.clone()).unwrap();
    engine.attach_dag(dag);
    let genesis_score = engine.calculate_blue_score(&genesis.hash).unwrap();
    let child_score = engine.calculate_blue_score(&child.hash).unwrap();
    assert!(genesis_score > 0);
    assert!(child_score > 0);
}

#[test]
fn test_select_parent() {
    let mut engine = GHOSTDAGEngine::new(2);
    let mut dag = BlockDAG::new();
    dag.create_genesis_if_empty();
    let genesis_hash = dag.get_tips()[0].clone();
    let parent1 = create_test_block("parent1", vec![genesis_hash.clone()]);
    let parent2 = create_test_block("parent2", vec![genesis_hash.clone()]);
    let child = create_test_block("child", vec![parent1.hash.clone(), parent2.hash.clone()]);
    dag.insert_block(parent1.clone()).unwrap();
    dag.insert_block(parent2.clone()).unwrap();
    dag.insert_block(child.clone()).unwrap();
    engine.attach_dag(dag);
    let best_parent = engine.select_parent(&child.hash).unwrap();
    assert!(best_parent == parent1.hash || best_parent == parent2.hash);
}

#[test]
fn test_generate_ordering() {
    let mut engine = GHOSTDAGEngine::new(2);
    let mut dag = BlockDAG::new();
    let genesis = create_test_block("genesis", vec![]);
    let child1 = create_test_block("child1", vec![genesis.hash.clone()]);
    let child2 = create_test_block("child2", vec![genesis.hash.clone()]);
    dag.insert_block(genesis.clone()).unwrap();
    dag.insert_block(child1.clone()).unwrap();
    dag.insert_block(child2.clone()).unwrap();
    engine.attach_dag(dag);
    let ordering = engine.generate_ordering().unwrap();
    assert_eq!(ordering.len(), 3);
    assert_eq!(ordering[0], genesis.hash);
}

#[test]
fn test_validate_ordering() {
    let mut engine = GHOSTDAGEngine::new(2);
    let mut dag = BlockDAG::new();
    let genesis = create_test_block("genesis", vec![]);
    let child = create_test_block("child", vec![genesis.hash.clone()]);
    dag.insert_block(genesis.clone()).unwrap();
    dag.insert_block(child.clone()).unwrap();
    engine.attach_dag(dag);
    let ordering = vec![genesis.hash.clone(), child.hash.clone()];
    let result = engine.validate_ordering(&ordering);
    assert!(result.is_ok());
}

#[test]
fn test_validate_ordering_invalid() {
    let mut engine = GHOSTDAGEngine::new(2);
    let mut dag = BlockDAG::new();
    let genesis = create_test_block("genesis", vec![]);
    let child = create_test_block("child", vec![genesis.hash.clone()]);
    dag.insert_block(genesis.clone()).unwrap();
    dag.insert_block(child.clone()).unwrap();
    engine.attach_dag(dag);
    let invalid_ordering = vec![child.hash.clone(), genesis.hash.clone()];
    let result = engine.validate_ordering(&invalid_ordering);
    assert!(result.is_err());
}

#[test]
fn ghostdag_test_get_stats() {
    let mut engine = GHOSTDAGEngine::new(2);
    let mut dag = BlockDAG::new();
    let genesis = create_test_block("genesis", vec![]);
    dag.insert_block(genesis).unwrap();
    engine.attach_dag(dag);
    let stats = engine.get_stats();
    assert_eq!(stats.k_parameter, 2);
    assert!(stats.total_blocks > 0);
}

#[test]
fn test_cache_effectiveness() {
    let mut engine = GHOSTDAGEngine::new(2);
    let mut dag = BlockDAG::new();
    let genesis = create_test_block("genesis", vec![]);
    dag.insert_block(genesis.clone()).unwrap();
    engine.attach_dag(dag);
    let _ = engine.calculate_blue_score(&genesis.hash);
    let _ = engine.get_blue_score(&genesis.hash);
    assert_eq!(engine.get_stats().cache_size, 1);
}

#[test]
fn test_all_blue_scores() {
    let mut engine = GHOSTDAGEngine::new(2);
    let mut dag = BlockDAG::new();
    let genesis = create_test_block("genesis", vec![]);
    let child = create_test_block("child", vec![genesis.hash.clone()]);
    dag.insert_block(genesis).unwrap();
    dag.insert_block(child).unwrap();
    engine.attach_dag(dag);
    let scores = engine.get_all_blue_scores().unwrap();
    assert_eq!(scores.len(), 2);
}

#[test]
fn blue_score_counts_ancestors_and_grows_along_parents() {
    let mut engine = GHOSTDAGEngine::new(0);
    let mut dag = BlockDAG::new();
    let genesis = create_test_block("genesis", vec![]);
    let a = create_test_block("a", vec![genesis.hash.clone()]);
    let b = create_test_block("b", vec![genesis.hash.clone()]);
    let c = create_test_block("c", vec![a.hash.clone(), b.hash.clone()]);
    dag.insert_block(genesis.clone()).unwrap();
    dag.insert_block(a.clone()).unwrap();
    dag.insert_block(b.clone()).unwrap();
    dag.insert_block(c.clone()).unwrap();
    engine.attach_dag(dag);
    assert_eq!(engine.calculate_blue_score(&genesis.hash).unwrap(), 1);
    assert_eq!(engine.calculate_blue_score(&a.hash).unwrap(), 2);
    assert_eq!(engine.calculate_blue_score(&c.hash).unwrap(), 4);
    let best = engine.select_parent(&c.hash).unwrap();
    let expected = if a.hash < b.hash { a.hash } else { b.hash };
    assert_eq!(best, expected);
    let ordering = engine.generate_ordering().unwrap();
    assert_eq!(ordering[0], genesis.hash);
    assert_eq!(ordering[1], expected);
    assert_eq!(ordering[3], c.hash);
    assert!(engine.validate_ordering(&ordering).is_ok());
}

#[test]
fn engine_without_dag_reports_errors() {
    let mut engine = GHOSTDAGEngine::new(2);
    assert!(engine.calculate_blue_score(&[1u8; 32]).is_err());
    assert!(engine.generate_ordering().is_err());
    assert!(engine.validate_ordering(&[]).is_err());
    assert!(engine.get_all_blue_scores().is_err());
    assert!(engine.select_parent(&[1u8; 32]).is_err());
    let dag = BlockDAG::new();
    assert!(engine.select_parent_from_parents(&dag, &[]).is_err());
    assert_eq!(engine.select_parent_from_parents(&dag, &[[3u8; 32], [2u8; 32]]).unwrap(), [2u8; 32]);
}
