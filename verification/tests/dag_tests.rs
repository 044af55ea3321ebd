use cytah_core::block::Block;
use cytah_core::blockdag::BlockDAG;
use cytah_core::dag_index::DAGIndex;
use cytah_core::dag_traversal::DAGTraversal;
use cytah_core::hashing::BlockHash;
use cytah_core::storage::BlockStore;
use cytah_core::transaction::Transaction;

fn create_test_block(hash_seed: &str, parents: Vec<BlockHash>) -> Block {
    let seed_bytes = hash_seed.as_bytes();
    let mut from: [u8; 20] = [1; 20];
    let mut to: [u8; 20] = [2; 20];
    for (i, &b) in seed_bytes.iter().take(20).enumerate() {
        from[i] = from[i].wrapping_add(b);
    }
    for (i, &b) in seed_bytes.iter().skip(20).take(20).enumerate() {
        to[i] = to[i].wrapping_add(b);
    }
    let amount = 100 + seed_bytes.len() as u64;
    let tx = Transaction::new(from, to, amount, 0, 21000, 1);
    Block::new(parents, 1000 + hash_seed.len() as u64, vec![tx], 42, 0, 0, [0; 20], [0; 32])
}

#[test]
fn test_blockdag_creation() {
    let dag = BlockDAG::new();
    assert_eq!(dag.block_count(), 0);
}

#[test]
fn test_insert_genesis_block() {
    let genesis = create_test_block("genesis", vec![]);
    let dag = BlockDAG::with_genesis(genesis.clone()).unwrap();
    assert_eq!(dag.block_count(), 1);
    assert_eq!(dag.get_tips(), vec![genesis.hash]);
}

#[test]
fn test_insert_non_genesis_without_parent_fails() {
    let mut dag = BlockDAG::new();
    let genesis = create_test_block("genesis", vec![]);
    dag.insert_block(genesis).unwrap();
    let block = create_test_block("test", vec![]);
    let result = dag.insert_block(block);
    assert!(result.is_err());
}

#[test]
fn test_insert_block_with_missing_parent_fails() {
    let mut dag = BlockDAG::new();
    let genesis = create_test_block("genesis", vec![]);
    dag.insert_block(genesis).unwrap();
    let block = create_test_block("test", vec![[0x6e; 32]]);
    let result = dag.insert_block(block);
    assert!(result.is_err());
}

#[test]
fn test_insert_block_chain() {
    let mut dag = BlockDAG::new();
    let genesis = create_test_block("genesis", vec![]);
    dag.insert_block(genesis.clone()).unwrap();
    let child = create_test_block("child", vec![genesis.hash.clone()]);
    dag.insert_block(child.clone()).unwrap();
    assert_eq!(dag.block_count(), 2);
    assert_eq!(dag.get_tips(), vec![child.hash]);
}

#[test]
fn test_dag_tips_update() {
    let mut dag = BlockDAG::new();
    let genesis = create_test_block("genesis", vec![]);
    dag.insert_block(genesis.clone()).unwrap();
    let child1 = create_test_block("child1", vec![genesis.hash.clone()]);
    dag.insert_block(child1.clone()).unwrap();
    let child2 = create_test_block("child2", vec![genesis.hash.clone()]);
    dag.insert_block(child2.clone()).unwrap();
    let tips = dag.get_tips();
    assert_eq!(tips.len(), 2);
    assert!(tips.contains(&child1.hash));
    assert!(tips.contains(&child2.hash));
    assert!(!tips.contains(&genesis.hash));
}

#[test]
fn test_parent_child_index() {
    let mut dag = BlockDAG::new();
    let parent = create_test_block("parent", vec![]);
    dag.insert_block(parent.clone()).unwrap();
    let child1 = create_test_block("child1", vec![parent.hash.clone()]);
    let child2 = create_test_block("child2", vec![parent.hash.clone()]);
    dag.insert_block(child1.clone()).unwrap();
    dag.insert_block(child2.clone()).unwrap();
    let children = dag.get_children(&parent.hash);
    assert_eq!(children.len(), 2);
}

#[test]
fn test_multiple_parents() {
    let mut dag = BlockDAG::new();
    let genesis = create_test_block("genesis", vec![]);
    dag.insert_block(genesis.clone()).unwrap();
    let parent1 = create_test_block("parent1", vec![genesis.hash.clone()]);
    let parent2 = create_test_block("parent2", vec![genesis.hash.clone()]);
    dag.insert_block(parent1.clone()).unwrap();
    dag.insert_block(parent2.clone()).unwrap();
    let child = create_test_block("child", vec![parent1.hash.clone(), parent2.hash.clone()]);
    dag.insert_block(child.clone()).unwrap();
    assert_eq!(dag.block_count(), 4);
    assert_eq!(dag.get_tips(), vec![child.hash]);
}

#[test]
fn test_validate_dag() {
    let mut dag = BlockDAG::new();
    let genesis = create_test_block("genesis", vec![]);
    dag.insert_block(genesis).unwrap();
    assert!(dag.validate().is_ok());
}

#[test]
fn blockdag_test_get_ancestors() {
    let mut dag = BlockDAG::new();
    let genesis = create_test_block("genesis", vec![]);
    dag.insert_block(genesis.clone()).unwrap();
    let child = create_test_block("child", vec![genesis.hash.clone()]);
    dag.insert_block(child.clone()).unwrap();
    let ancestors = dag.get_ancestors(&child.hash);
    assert_eq!(ancestors.len(), 1);
    assert!(ancestors.contains(&genesis.hash));
}

#[test]
fn blockdag_test_is_ancestor() {
    let mut dag = BlockDAG::new();
    let genesis = create_test_block("genesis", vec![]);
    dag.insert_block(genesis.clone()).unwrap();
    let child = create_test_block("child", vec![genesis.hash.clone()]);
    dag.insert_block(child.clone()).unwrap();
    assert!(dag.is_ancestor(&genesis.hash, &child.hash));
    assert!(!dag.is_ancestor(&child.hash, &genesis.hash));
}

#[test]
fn blockdag_test_find_lca() {
    let mut dag = BlockDAG::new();
    let genesis = create_test_block("genesis", vec![]);
    dag.insert_block(genesis.clone()).unwrap();
    let child1 = create_test_block("child1", vec![genesis.hash.clone()]);
    let child2 = create_test_block("child2", vec![genesis.hash.clone()]);
    dag.insert_block(child1.clone()).unwrap();
    dag.insert_block(child2.clone()).unwrap();
    let lca = dag.find_lca(&child1.hash, &child2.hash);
    assert_eq!(lca, Some(genesis.hash));
}

#[test]
fn blockdag_test_topological_order() {
    let mut dag = BlockDAG::new();
    let genesis = create_test_block("genesis", vec![]);
    dag.insert_block(genesis.clone()).unwrap();
    let child = create_test_block("child", vec![genesis.hash.clone()]);
    dag.insert_block(child.clone()).unwrap();
    let order = dag.get_topological_order();
    assert_eq!(order.len(), 2);
    assert!(order.iter().position(|h| h == &genesis.hash) < order.iter().position(|h| h == &child.hash));
}

#[test]
fn test_dag_stats() {
    let mut dag = BlockDAG::new();
    let genesis = create_test_block("genesis", vec![]);
    dag.insert_block(genesis).unwrap();
    let stats = dag.get_stats();
    assert_eq!(stats.total_blocks, 1);
    assert_eq!(stats.num_tips, 1);
}

#[test]
fn test_create_genesis_if_empty() {
    let mut dag = BlockDAG::new();
    assert_eq!(dag.block_count(), 0);
    dag.create_genesis_if_empty();
    assert_eq!(dag.block_count(), 1);
}

#[test]
fn test_insert_blocks_batch() {
    let mut dag = BlockDAG::new();
    let genesis = create_test_block("genesis", vec![]);
    dag.insert_block(genesis.clone()).unwrap();
    let child1 = create_test_block("child1", vec![genesis.hash.clone()]);
    let child2 = create_test_block("child2", vec![genesis.hash.clone()]);
    let blocks = vec![child1, child2];
    let inserted = dag.insert_blocks(blocks).unwrap();
    assert_eq!(inserted, 2);
    assert_eq!(dag.block_count(), 3);
}

#[test]
fn test_export_dag() {
    let mut dag = BlockDAG::new();
    let genesis = create_test_block("genesis", vec![]);
    dag.insert_block(genesis).unwrap();
    let export = dag.export_dag();
    assert_eq!(export.blocks.len(), 1);
    assert_eq!(export.tips.len(), 1);
    assert_eq!(export.statistics.total_blocks, 1);
}

#[test]
fn test_build_index_from_store() {
    let mut store = BlockStore::new();
    let block1 = create_test_block("block1", vec![]);
    let block2 = create_test_block("block2", vec![block1.hash.clone()]);
    store.insert_block(block1.clone()).unwrap();
    store.insert_block(block2.clone()).unwrap();
    let index = DAGIndex::build_from_store(&store);
    assert_eq!(index.get_tips(), vec![block2.hash]);
}

#[test]
fn test_get_children() {
    let mut store = BlockStore::new();
    let parent = create_test_block("parent", vec![]);
    let child1 = create_test_block("child1", vec![parent.hash.clone()]);
    let child2 = create_test_block("child2", vec![parent.hash.clone()]);
    store.insert_block(parent.clone()).unwrap();
    store.insert_block(child1.clone()).unwrap();
    store.insert_block(child2.clone()).unwrap();
    let index = DAGIndex::build_from_store(&store);
    let children = index.get_children(&parent.hash);
    assert_eq!(children.len(), 2);
}

#[test]
fn test_get_all_descendants() {
    let mut store = BlockStore::new();
    let genesis = create_test_block("genesis", vec![]);
    let child1 = create_test_block("child1", vec![genesis.hash.clone()]);
    let child2 = create_test_block("child2", vec![child1.hash.clone()]);
    store.insert_block(genesis.clone()).unwrap();
    store.insert_block(child1.clone()).unwrap();
    store.insert_block(child2.clone()).unwrap();
    let index = DAGIndex::build_from_store(&store);
    let descendants = index.get_all_descendants(&genesis.hash, &store);
    assert_eq!(descendants.len(), 2);
}

#[test]
fn dag_index_test_is_ancestor() {
    let mut store = BlockStore::new();
    let genesis = create_test_block("genesis", vec![]);
    let child = create_test_block("child", vec![genesis.hash.clone()]);
    store.insert_block(genesis.clone()).unwrap();
    store.insert_block(child.clone()).unwrap();
    let index = DAGIndex::build_from_store(&store);
    assert!(index.is_ancestor(&genesis.hash, &child.hash, &store));
    assert!(!index.is_ancestor(&child.hash, &genesis.hash, &store));
}

#[test]
fn dag_index_test_topological_order() {
    let mut store = BlockStore::new();
    let genesis = create_test_block("genesis", vec![]);
    let child = create_test_block("child", vec![genesis.hash.clone()]);
    store.insert_block(genesis.clone()).unwrap();
    store.insert_block(child.clone()).unwrap();
    let index = DAGIndex::build_from_store(&store);
    let order = index.get_topological_order(&store);
    assert_eq!(order.len(), 2);
    assert_eq!(order[0], genesis.hash);
    assert_eq!(order[1], child.hash);
}

#[test]
fn dag_index_test_find_lca() {
    let mut store = BlockStore::new();
    let genesis = create_test_block("genesis", vec![]);
    let child1 = create_test_block("child1", vec![genesis.hash.clone()]);
    let child2 = create_test_block("child2", vec![genesis.hash.clone()]);
    store.insert_block(genesis.clone()).unwrap();
    store.insert_block(child1.clone()).unwrap();
    store.insert_block(child2.clone()).unwrap();
    let index = DAGIndex::build_from_store(&store);
    let lca = index.find_lca(&child1.hash, &child2.hash, &store);
    assert_eq!(lca, Some(genesis.hash));
}

#[test]
fn dag_traversal_test_get_ancestors() {
    let mut dag = BlockDAG::new();
    let genesis = create_test_block("genesis", vec![]);
    let child1 = create_test_block("child1", vec![genesis.hash.clone()]);
    let child2 = create_test_block("child2", vec![child1.hash.clone()]);
    dag.insert_block(genesis.clone()).unwrap();
    dag.insert_block(child1.clone()).unwrap();
    dag.insert_block(child2.clone()).unwrap();
    let ancestors = DAGTraversal::get_ancestors(&dag, &child2.hash);
    assert!(ancestors.contains(&genesis.hash));
    assert!(ancestors.contains(&child1.hash));
    assert!(!ancestors.contains(&child2.hash));
}

#[test]
fn test_get_descendants() {
    let mut dag = BlockDAG::new();
    let genesis = create_test_block("genesis", vec![]);
    let child1 = create_test_block("child1", vec![genesis.hash.clone()]);
    let child2 = create_test_block("child2", vec![child1.hash.clone()]);
    dag.insert_block(genesis.clone()).unwrap();
    dag.insert_block(child1.clone()).unwrap();
    dag.insert_block(child2.clone()).unwrap();
    let descendants = DAGTraversal::get_descendants(&dag, &genesis.hash);
    assert!(descendants.contains(&child1.hash));
    assert!(descendants.contains(&child2.hash));
}

#[test]
fn test_count_ancestors() {
    let mut dag = BlockDAG::new();
    let genesis = create_test_block("genesis", vec![]);
    let child1 = create_test_block("child1", vec![genesis.hash.clone()]);
    let child2 = create_test_block("child2", vec![child1.hash.clone()]);
    let child2_hash = child2.hash.clone();
    dag.insert_block(genesis).unwrap();
    dag.insert_block(child1).unwrap();
    dag.insert_block(child2).unwrap();
    assert_eq!(DAGTraversal::count_ancestors(&dag, &child2_hash), 2);
}

#[test]
fn dag_traversal_test_is_ancestor() {
    let mut dag = BlockDAG::new();
    let genesis = create_test_block("genesis", vec![]);
    let child = create_test_block("child", vec![genesis.hash.clone()]);
    dag.insert_block(genesis.clone()).unwrap();
    dag.insert_block(child.clone()).unwrap();
    assert!(DAGTraversal::is_ancestor(&dag, &genesis.hash, &child.hash));
    assert!(!DAGTraversal::is_ancestor(&dag, &child.hash, &genesis.hash));
}

#[test]
fn test_get_parents() {
    let mut dag = BlockDAG::new();
    let parent = create_test_block("parent", vec![]);
    let child = create_test_block("child", vec![parent.hash.clone()]);
    dag.insert_block(parent.clone()).unwrap();
    dag.insert_block(child.clone()).unwrap();
    let parents = DAGTraversal::get_parents(&dag, &child.hash);
    assert_eq!(parents.len(), 1);
    assert_eq!(parents[0], parent.hash);
}

#[test]
fn test_get_anticone() {
    let mut dag = BlockDAG::new();
    let genesis = create_test_block("genesis", vec![]);
    let branch1 = create_test_block("branch1", vec![genesis.hash.clone()]);
    let branch2 = create_test_block("branch2", vec![genesis.hash.clone()]);
    dag.insert_block(genesis.clone()).unwrap();
    dag.insert_block(branch1.clone()).unwrap();
    dag.insert_block(branch2.clone()).unwrap();
    let anticone = DAGTraversal::get_anticone(&dag, &branch1.hash, &branch2.hash);
    assert!(!anticone.contains(&branch1.hash));
}

#[test]
fn get_path_walks_parent_links() {
    let mut dag = BlockDAG::new();
    let genesis = create_test_block("genesis", vec![]);
    let child1 = create_test_block("child1", vec![genesis.hash.clone()]);
    let child2 = create_test_block("child2", vec![child1.hash.clone()]);
    dag.insert_block(genesis.clone()).unwrap();
    dag.insert_block(child1.clone()).unwrap();
    dag.insert_block(child2.clone()).unwrap();
    let path = DAGTraversal::get_path(&dag, &genesis.hash, &child2.hash).unwrap();
    assert_eq!(path, vec![genesis.hash, child1.hash, child2.hash]);
    assert!(DAGTraversal::get_path(&dag, &child2.hash, &genesis.hash).is_none());
}

#[test]
fn depth_and_furthest_common_ancestor() {
    let mut dag = BlockDAG::new();
    let genesis = create_test_block("genesis", vec![]);
    let a = create_test_block("a", vec![genesis.hash.clone()]);
    let b = create_test_block("b", vec![genesis.hash.clone()]);
    let c = create_test_block("c", vec![a.hash.clone(), b.hash.clone()]);
    let d = create_test_block("d", vec![a.hash.clone()]);
    dag.insert_block(genesis.clone()).unwrap();
    dag.insert_block(a.clone()).unwrap();
    dag.insert_block(b.clone()).unwrap();
    dag.insert_block(c.clone()).unwrap();
    dag.insert_block(d.clone()).unwrap();
    assert_eq!(dag.get_block_depth(&genesis.hash), 0);
    assert_eq!(dag.get_block_depth(&c.hash), 2);
    assert_eq!(DAGTraversal::get_blocks_at_depth(&dag, 1).len(), 2);
    assert_eq!(DAGTraversal::get_furthest_common_ancestor(&dag, &c.hash, &d.hash), Some(a.hash));
    assert_eq!(DAGTraversal::count_descendants(&dag, &genesis.hash), 4);
}

#[test]
fn find_lca_is_lowest() {
    let g = Block::new(vec![], 1, vec![], 0, 0, 0, [0; 20], [0; 32]);
    let x = Block::new(vec![g.hash], 2, vec![], 0, 0, 0, [0; 20], [0; 32]);
    let y = Block::new(vec![x.hash], 3, vec![], 0, 0, 0, [0; 20], [0; 32]);
    let h1 = Block::new(vec![y.hash], 4, vec![], 0, 0, 0, [0; 20], [0; 32]);
    let h2 = Block::new(vec![x.hash, y.hash], 5, vec![], 0, 0, 0, [0; 20], [0; 32]);
    let mut dag = BlockDAG::new();
    for b in [&g, &x, &y, &h1, &h2] {
        dag.insert_block((*b).clone()).unwrap();
    }
    assert_eq!(dag.find_lca(&h1.hash, &h2.hash), Some(y.hash));
    assert_eq!(DAGTraversal::get_path(&dag, &g.hash, &h2.hash).unwrap(), vec![g.hash, x.hash, h2.hash]);
}
