use myrustchain::config::{node_port, Config};
use myrustchain::consensus::message::ConsensusMessage;
use myrustchain::consensus::pbft::Node;
use myrustchain::engine::{draw_transactions, transfer_from_draws, ConsensusEngine};
use myrustchain::ledger::accounts::Accounts;
use myrustchain::ledger::block::Block;
use myrustchain::ledger::chain::Blockchain;
use myrustchain::ledger::transaction::Transaction;
use myrustchain::utils::hash::calculate_hash;

fn tx(sender: &str, receiver: &str, amount: u32) -> Transaction {
    Transaction { sender: sender.to_string(), receiver: receiver.to_string(), amount }
}

fn balance(chain: &Blockchain, name: &str) -> Option<u32> {
    chain.accounts.get(&name.to_string())
}

#[test]
fn quorum_size_values() {
    let q = |n: usize| Config { total_nodes: n, block_timeout_ms: 0 }.quorum_size();
    assert_eq!(q(1), 1);
    assert_eq!(q(3), 1);
    assert_eq!(q(4), 3);
    assert_eq!(q(6), 3);
    assert_eq!(q(7), 5);
    assert_eq!(q(10), 7);
}

#[test]
fn leader_rotates_over_nodes() {
    let config = Config { total_nodes: 4, block_timeout_ms: 0 };
    assert_eq!(config.get_leader_id(0), 0);
    assert_eq!(config.get_leader_id(5), 1);
    assert_eq!(config.get_leader_id(7), 3);
}

#[test]
fn ports_of_peers() {
    assert_eq!(node_port(3), 8003);
    let node = Node::new(1);
    assert_eq!(node.peer_ports(4), vec![8000, 8002, 8003]);
    assert_eq!(Node::new(9).peer_ports(3), vec![8000, 8001, 8002]);
}

#[test]
fn transaction_text() {
    assert_eq!(tx("Alice", "Bob", 105).to_string(), "AliceBob105");
    assert_eq!(tx("a", "b", 0).to_string(), "ab0");
}

#[test]
fn block_hash_is_sha256_hex_of_fields() {
    let block = Block::new_block_at(1, "abc".to_string(), vec![tx("Alice", "Bob", 5)], 1700000000);
    assert_eq!(block.hash, "f80ccc69b436ba2d1d5d837804b74808aa48e6f57973f93b861df2147194a8d7");
    assert_eq!(calculate_hash(&block), block.hash);
    let genesis = Block::new_block_at(0, "0".to_string(), vec![], 0);
    assert_eq!(genesis.hash, "53baa57566b5b1e6be69c2eaec161fae5d9d33a349e6ee213d989a2a7f541910");
}

#[test]
fn fields_that_run_together_hash_apart() {
    let a = Block::new_block_at(1, "x".to_string(), vec![], 23);
    let b = Block::new_block_at(12, "x".to_string(), vec![], 3);
    assert_eq!(a.hash, "9499e219e45cab8105de8cd2cc70976fbd2b9320758895b2f0c032d381954a7a");
    assert_eq!(b.hash, "782c1ab6c1e87a83b919d6a5d4adb42491f3d0d2a3e8d770e75d919726b376a6");
    assert_ne!(a.hash, b.hash);
    let c = Block::new_block_at(1, "x".to_string(), vec![tx("ab", "c", 1)], 0);
    let d = Block::new_block_at(1, "x".to_string(), vec![tx("a", "bc", 1)], 0);
    assert_ne!(c.hash, d.hash);
}

#[test]
fn new_block_is_sealed() {
    let block = Block::new_block(4, "prev".to_string(), vec![tx("Bob", "Moi", 1)]);
    assert_eq!(block.index, 4);
    assert_eq!(block.prev_hash, "prev");
    assert_eq!(block.hash.len(), 64);
    assert_eq!(calculate_hash(&block), block.hash);
}

#[test]
fn genesis_state() {
    let chain = Blockchain::new_blockchain();
    assert_eq!(chain.chain.len(), 1);
    assert_eq!(chain.chain[0].index, 0);
    assert_eq!(chain.chain[0].prev_hash, "0");
    assert_eq!(balance(&chain, "Alice"), Some(100));
    assert_eq!(balance(&chain, "Bob"), Some(50));
    assert_eq!(balance(&chain, "Moi"), Some(75));
    assert_eq!(balance(&chain, "Eve"), None);
    assert!(chain.is_chain_valid());
}

#[test]
fn add_block_keeps_chain_valid() {
    let mut chain = Blockchain::new_blockchain();
    chain.add_block(vec![tx("Alice", "Bob", 1)]);
    chain.add_block(vec![]);
    assert_eq!(chain.chain.len(), 3);
    assert_eq!(chain.chain[2].index, 2);
    assert_eq!(chain.chain[2].prev_hash, chain.chain[1].hash);
    assert!(chain.is_chain_valid());
}

#[test]
fn tampered_chain_is_invalid() {
    let mut chain = Blockchain::new_blockchain();
    chain.add_block(vec![tx("Alice", "Bob", 1)]);
    chain.chain[1].data[0].amount = 99;
    assert!(!chain.is_chain_valid());

    let mut relinked = Blockchain::new_blockchain();
    relinked.add_block(vec![]);
    relinked.chain[0].hash = "other".to_string();
    assert!(!relinked.is_chain_valid());
}

#[test]
fn apply_block_moves_clamps_and_burns() {
    let mut chain = Blockchain::new_blockchain();
    let block = Block::new_block(1, "x".to_string(), vec![
        tx("Alice", "Bob", 30),
        tx("Moi", "Eve", 100),
        tx("Eve", "Alice", 7),
    ]);
    chain.apply_block(&block);
    assert_eq!(balance(&chain, "Alice"), Some(77));
    assert_eq!(balance(&chain, "Bob"), Some(80));
    assert_eq!(balance(&chain, "Moi"), Some(0));
    assert_eq!(balance(&chain, "Eve"), None);
    assert_eq!(chain.chain.len(), 1);
}

#[test]
fn verify_transaction_checks_balance() {
    let chain = Blockchain::new_blockchain();
    assert_eq!(chain.verify_transaction(&tx("Bob", "Alice", 50)), (true, "Bob".to_string()));
    assert_eq!(chain.verify_transaction(&tx("Bob", "Alice", 51)), (false, "Bob".to_string()));
    assert_eq!(chain.verify_transaction(&tx("Eve", "Alice", 0)), (false, "Eve".to_string()));
}

#[test]
fn accounts_insert_and_list() {
    let mut accounts = Accounts::new();
    accounts.insert("x".to_string(), 1);
    accounts.insert("y".to_string(), 2);
    accounts.insert("x".to_string(), 3);
    assert_eq!(accounts.get(&"x".to_string()), Some(3));
    assert_eq!(accounts.get(&"y".to_string()), Some(2));
    assert_eq!(accounts.get(&"z".to_string()), None);
    let mut listed = accounts.to_vec();
    listed.sort();
    assert_eq!(listed, vec![("x".to_string(), 3), ("y".to_string(), 2)]);
    let copy = accounts.clone();
    assert_eq!(copy.get(&"x".to_string()), Some(3));
}

#[test]
fn spending_received_funds_in_the_same_block_is_accepted() {
    let mut node = Node::new(0);
    let prev = node.blockchain.chain[0].hash.clone();
    let block = Block::new_block(1, prev, vec![tx("Bob", "Eve", 50), tx("Eve", "Alice", 50)]);
    let reply = node.receive_message(ConsensusMessage::PrePrepare { block, view: 0 }, 1);
    assert!(matches!(reply, Some(ConsensusMessage::Prepare { node_id: 0, .. })));
}

#[test]
fn unknown_sender_may_only_send_nothing() {
    let mut node = Node::new(0);
    let prev = node.blockchain.chain[0].hash.clone();
    let zero = Block::new_block(1, prev.clone(), vec![tx("Eve", "Bob", 0)]);
    assert!(node.receive_message(ConsensusMessage::PrePrepare { block: zero, view: 0 }, 1).is_some());
    let one = Block::new_block(1, prev, vec![tx("Eve", "Bob", 1)]);
    assert!(node.receive_message(ConsensusMessage::PrePrepare { block: one, view: 0 }, 1).is_none());
}

#[test]
fn commit_needs_quorum_and_proposal() {
    let mut node = Node::new(2);
    let prev = node.blockchain.chain[0].hash.clone();
    let block = Block::new_block(1, prev, vec![tx("Alice", "Moi", 25)]);
    let hash = block.hash.clone();
    node.receive_message(ConsensusMessage::PrePrepare { block: block.clone(), view: 0 }, 2);
    node.receive_message(ConsensusMessage::Commit { block_hash: hash.clone(), node_id: 5 }, 2);
    assert_eq!(node.blockchain.chain.len(), 1);
    node.receive_message(ConsensusMessage::Commit { block_hash: hash.clone(), node_id: 5 }, 2);
    assert_eq!(node.blockchain.chain.len(), 1);
    assert_eq!(node.messages_received.len(), 3);
    let reply = node.receive_message(ConsensusMessage::Commit { block_hash: hash.clone(), node_id: 6 }, 2);
    assert!(reply.is_none());
    assert_eq!(node.blockchain.chain.len(), 2);
    assert_eq!(node.blockchain.chain[1].hash, hash);
    assert!(node.messages_received.is_empty());
    assert_eq!(balance(&node.blockchain, "Alice"), Some(75));
    assert_eq!(balance(&node.blockchain, "Moi"), Some(100));

    let mut orphan = Node::new(2);
    orphan.receive_message(ConsensusMessage::Commit { block_hash: "none".to_string(), node_id: 1 }, 1);
    assert_eq!(orphan.blockchain.chain.len(), 1);
}

#[test]
fn committed_block_is_not_appended_twice() {
    let mut node = Node::new(0);
    let prev = node.blockchain.chain[0].hash.clone();
    let block = Block::new_block(1, prev, vec![]);
    for _ in 0..2 {
        node.receive_message(ConsensusMessage::PrePrepare { block: block.clone(), view: 0 }, 1);
        node.receive_message(ConsensusMessage::Commit { block_hash: block.hash.clone(), node_id: 3 }, 1);
    }
    assert_eq!(node.blockchain.chain.len(), 2);
    assert_eq!(node.messages_received.len(), 2);
}

#[test]
fn prepare_votes_for_other_hashes_do_not_count() {
    let mut node = Node::new(0);
    node.receive_message(ConsensusMessage::Prepare { block_hash: "a".to_string(), node_id: 1 }, 2);
    node.receive_message(ConsensusMessage::Commit { block_hash: "b".to_string(), node_id: 2 }, 2);
    let res = node.receive_message(ConsensusMessage::Prepare { block_hash: "b".to_string(), node_id: 3 }, 2);
    assert!(res.is_none());
    let res = node.receive_message(ConsensusMessage::Prepare { block_hash: "a".to_string(), node_id: 4 }, 2);
    assert!(matches!(res, Some(ConsensusMessage::Commit { ref block_hash, node_id: 0 }) if block_hash == "a"));
}

#[test]
fn engine_proposes_and_commits_everywhere() {
    let mut engine = ConsensusEngine::new(Config { total_nodes: 4, block_timeout_ms: 0 });
    assert_eq!(engine.nodes.len(), 4);
    for (i, node) in engine.nodes.iter().enumerate() {
        assert_eq!(node.id as usize, i);
        assert_eq!(node.blockchain.chain.len(), 1);
    }
    let block = engine.propose_block(5, vec![tx("Moi", "Bob", 5)]);
    assert_eq!(block.index, 5);
    assert_eq!(block.prev_hash, engine.nodes[1].blockchain.chain[0].hash);
    engine.commit_block(&block);
    for node in &engine.nodes {
        assert_eq!(node.blockchain.chain.len(), 2);
        assert_eq!(node.blockchain.chain[1].hash, block.hash);
        assert_eq!(balance(&node.blockchain, "Moi"), Some(70));
        assert_eq!(balance(&node.blockchain, "Bob"), Some(55));
    }
}

#[test]
fn checked_block_commits_with_exact_balances() {
    let mut node = Node::new(0);
    let prev = node.blockchain.chain[0].hash.clone();
    let block = Block::new_block(1, prev, vec![tx("Bob", "Eve", 50), tx("Eve", "Alice", 50)]);
    let hash = block.hash.clone();
    let reply = node.receive_message(ConsensusMessage::PrePrepare { block, view: 0 }, 1);
    assert!(reply.is_some());
    node.receive_message(ConsensusMessage::Commit { block_hash: hash, node_id: 1 }, 1);
    assert_eq!(node.blockchain.chain.len(), 2);
    assert_eq!(balance(&node.blockchain, "Bob"), Some(0));
    assert_eq!(balance(&node.blockchain, "Alice"), Some(150));
    assert_eq!(balance(&node.blockchain, "Moi"), Some(75));
    assert_eq!(balance(&node.blockchain, "Eve"), None);
}

#[test]
fn wrong_block_index_is_rejected() {
    let mut node = Node::new(0);
    let prev = node.blockchain.chain[0].hash.clone();
    let block = Block::new_block(99, prev.clone(), vec![]);
    let reply = node.receive_message(ConsensusMessage::PrePrepare { block, view: 0 }, 1);
    assert!(reply.is_none());
    let block = Block::new_block(0, prev, vec![]);
    let reply = node.receive_message(ConsensusMessage::PrePrepare { block, view: 0 }, 1);
    assert!(reply.is_none());
}

#[test]
fn refused_block_is_never_committed() {
    let mut node = Node::new(0);
    let bad = Block::new_block(7, "x".to_string(), vec![]);
    let hash = bad.hash.clone();
    assert!(node.receive_message(ConsensusMessage::PrePrepare { block: bad, view: 0 }, 1).is_none());
    node.receive_message(ConsensusMessage::Commit { block_hash: hash, node_id: 1 }, 1);
    assert_eq!(node.blockchain.chain.len(), 1);
    assert_eq!(node.messages_received.len(), 2);

    let mut spender = Node::new(0);
    let prev = spender.blockchain.chain[0].hash.clone();
    let overspend = Block::new_block(1, prev, vec![tx("Bob", "Alice", 51)]);
    let hash = overspend.hash.clone();
    spender.receive_message(ConsensusMessage::PrePrepare { block: overspend, view: 0 }, 1);
    spender.receive_message(ConsensusMessage::Commit { block_hash: hash, node_id: 1 }, 1);
    assert_eq!(spender.blockchain.chain.len(), 1);
    assert_eq!(balance(&spender.blockchain, "Bob"), Some(50));
}

#[test]
fn unsafe_inputs_are_reported() {
    let mut node = Node::new(0);
    assert!(node.receive_is_safe(&ConsensusMessage::Prepare { block_hash: "h".to_string(), node_id: 1 }, 1));
    let prev = node.blockchain.chain[0].hash.clone();
    let big = Block::new_block(1, prev.clone(), vec![tx("Eve", "Bob", 0)]);
    assert!(node.receive_is_safe(&ConsensusMessage::PrePrepare { block: big, view: 0 }, 1));
    node.blockchain.accounts.insert("Bob".to_string(), u32::MAX);
    let overflowing = Block::new_block(1, prev, vec![tx("Alice", "Bob", 1)]);
    let hash = overflowing.hash.clone();
    let pp = ConsensusMessage::PrePrepare { block: overflowing, view: 0 };
    assert!(!node.receive_is_safe(&pp, 1));
    let wrong_index = Block::new_block(2, node.blockchain.chain[0].hash.clone(), vec![tx("Alice", "Bob", 1)]);
    assert!(node.receive_is_safe(&ConsensusMessage::PrePrepare { block: wrong_index, view: 0 }, 1));
    node.messages_received.push(pp);
    let commit = ConsensusMessage::Commit { block_hash: hash, node_id: 1 };
    assert!(node.receive_is_safe(&commit, 1));
    node.receive_message(commit, 1);
    assert_eq!(node.blockchain.chain.len(), 1);
    node.blockchain.chain.clear();
    assert!(!node.receive_is_safe(&ConsensusMessage::PrePrepare { block: Block::new_block(1, "x".to_string(), vec![]), view: 0 }, 1));
}

#[test]
fn drawn_transfers_map_to_users() {
    let t = transfer_from_draws(0, 0, 5);
    assert_eq!((t.sender.as_str(), t.receiver.as_str(), t.amount), ("Alice", "Bob", 5));
    let t = transfer_from_draws(0, 1, 0);
    assert_eq!((t.sender.as_str(), t.receiver.as_str()), ("Alice", "Moi"));
    let t = transfer_from_draws(1, 1, 9);
    assert_eq!((t.sender.as_str(), t.receiver.as_str()), ("Bob", "Moi"));
    let t = transfer_from_draws(2, 1, 3);
    assert_eq!((t.sender.as_str(), t.receiver.as_str()), ("Moi", "Bob"));
    let t = transfer_from_draws(2, 0, 3);
    assert_eq!((t.sender.as_str(), t.receiver.as_str()), ("Moi", "Alice"));
}

#[test]
fn drawn_transactions_keep_their_bounds() {
    let users = ["Alice", "Bob", "Moi"];
    for _ in 0..200 {
        let txs = draw_transactions();
        assert!((1..=3).contains(&txs.len()));
        for t in &txs {
            assert!(users.contains(&t.sender.as_str()));
            assert!(users.contains(&t.receiver.as_str()));
            assert_ne!(t.sender, t.receiver);
            assert!(t.amount < 10);
        }
    }
}

#[test]
fn covered_block_keeps_total_balance() {
    let mut chain = Blockchain::new_blockchain();
    let block = Block::new_block(1, "x".to_string(), vec![
        tx("Alice", "Bob", 60),
        tx("Bob", "Moi", 110),
        tx("Moi", "Alice", 185),
    ]);
    chain.apply_block(&block);
    let total: u32 = chain.accounts.to_vec().iter().map(|e| e.1).sum();
    assert_eq!(total, 225);
    assert_eq!(balance(&chain, "Alice"), Some(225));
    assert_eq!(balance(&chain, "Moi"), Some(0));
}

#[test]
fn chain_stays_linked_through_commits() {
    let mut node = Node::new(0);
    for round in 1..4u32 {
        let prev = node.blockchain.chain.last().unwrap().hash.clone();
        let block = Block::new_block(round, prev, vec![tx("Bob", "Alice", 1)]);
        let hash = block.hash.clone();
        assert!(node.receive_message(ConsensusMessage::PrePrepare { block, view: 0 }, 1).is_some());
        node.receive_message(ConsensusMessage::Commit { block_hash: hash, node_id: 1 }, 1);
    }
    assert_eq!(node.blockchain.chain.len(), 4);
    for i in 1..4 {
        assert_eq!(node.blockchain.chain[i].prev_hash, node.blockchain.chain[i - 1].hash);
        assert_eq!(node.blockchain.chain[i].index, node.blockchain.chain[i - 1].index + 1);
    }
    assert!(node.blockchain.is_chain_valid());
}
