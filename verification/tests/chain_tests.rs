use sha2::{Digest, Sha256};
use zkp_learn::chain::{block_hash, block_json, Account, Block, Blockchain};
use zkp_learn::crypto::{sign, Keypair, SignedTransaction};
use zkp_learn::transaction::Transaction;

fn sha256(data: &[u8]) -> [u8; 32] {
    let mut out = [0u8; 32];
    out.copy_from_slice(&Sha256::digest(data));
    out
}

fn byte_list(b: &[u8]) -> String {
    let parts: Vec<String> = b.iter().map(|x| x.to_string()).collect();
    format!("[{}]", parts.join(","))
}

#[test]
fn test_account_creation() {
    let account = Account::new(100, 0);
    assert_eq!(account.balance, 100);
    assert_eq!(account.nonce, 0);
}

#[test]
fn block_test_block_creation() {
    let block = Block::new([0u8; 32], vec![], 1, 1234567890);
    assert_eq!(block.prev_hash, [0u8; 32]);
    assert_eq!(block.txs.len(), 0);
    assert_eq!(block.height, 1);
    assert_eq!(block.timestamp, 1234567890);
}

#[test]
fn test_block_serialization() {
    let block = Block::new([0u8; 32], vec![], 1, 1234567890);
    let json = String::from_utf8(block_json(&block)).unwrap();
    assert!(json.contains("\"prev_hash\""));
    assert!(json.contains("\"height\":1"));
}

#[test]
fn block_json_exact() {
    let block = Block::new([0u8; 32], vec![], 1, 1234567890);
    let expected = format!(
        "{{\"prev_hash\":{},\"txs\":[],\"height\":1,\"timestamp\":1234567890}}",
        byte_list(&[0u8; 32])
    );
    assert_eq!(String::from_utf8(block_json(&block)).unwrap(), expected);
    assert_eq!(block_hash(&block), sha256(expected.as_bytes()));
}

#[test]
fn block_json_with_transaction() {
    let kp = Keypair::from_secret([5u8; 32]);
    let tx = Transaction::new(kp.public(), kp.public(), 7, 1);
    let sig = sign(&tx, &kp);
    let st = SignedTransaction::new(tx, sig);
    let block = Block::new([1u8; 32], vec![st.clone(), st.clone()], 2, 99);
    let tx_json = format!(
        "{{\"tx\":{{\"from_pubkey\":{},\"to_pubkey\":{},\"amount\":7,\"nonce\":1}},\"signature\":{},\"tx_id\":{}}}",
        byte_list(&kp.public().0),
        byte_list(&kp.public().0),
        byte_list(&st.signature.0),
        byte_list(&st.tx_id.0)
    );
    let expected = format!(
        "{{\"prev_hash\":{},\"txs\":[{},{}],\"height\":2,\"timestamp\":99}}",
        byte_list(&[1u8; 32]),
        tx_json,
        tx_json
    );
    assert_eq!(String::from_utf8(block_json(&block)).unwrap(), expected);
    assert_eq!(block.hash(), sha256(expected.as_bytes()));
}

#[test]
fn test_block_hash() {
    let block = Block::new([0u8; 32], vec![], 1, 1234567890);
    let hash1 = block_hash(&block);
    let hash2 = block_hash(&block);
    assert_eq!(hash1, hash2);
    let block2 = Block::new([1u8; 32], vec![], 1, 1234567890);
    let hash3 = block_hash(&block2);
    assert_ne!(hash1, hash3);
    assert_eq!(hash1.len(), 32);
}

#[test]
fn test_block_hash_method() {
    let block = Block::new([0u8; 32], vec![], 1, 1234567890);
    assert_eq!(block.hash(), block_hash(&block));
}

#[test]
fn test_genesis_detection() {
    let genesis = Block::new([0u8; 32], vec![], 0, 1234567890);
    assert!(genesis.is_genesis());
    let non_genesis = Block::new([1u8; 32], vec![], 1, 1234567890);
    assert!(!non_genesis.is_genesis());
}

#[test]
fn test_blockchain_creation() {
    let blockchain = Blockchain::new();
    assert_eq!(blockchain.len(), 0);
    assert!(blockchain.get_tip().is_none());
    assert!(blockchain.is_empty());
    assert!(Blockchain::default().get_canonical_chain().is_empty());
}

#[test]
fn test_add_genesis_block() {
    let mut blockchain = Blockchain::new();
    let genesis = Block::new([0u8; 32], vec![], 0, 1234567890);
    let genesis_hash = genesis.hash();
    blockchain.add_block(genesis).unwrap();
    assert_eq!(blockchain.len(), 1);
    assert_eq!(blockchain.get_tip(), Some(&genesis_hash));
}

#[test]
fn test_add_block_creates_fork() {
    let mut blockchain = Blockchain::new();
    let genesis = Block::new([0u8; 32], vec![], 0, 1000);
    let genesis_hash = genesis.hash();
    blockchain.add_block(genesis).unwrap();

    let block1a = Block::new(genesis_hash, vec![], 1, 2000);
    let hash1a = block1a.hash();
    blockchain.add_block(block1a).unwrap();
    assert_eq!(blockchain.get_tip(), Some(&hash1a));

    let block1b = Block::new(genesis_hash, vec![], 1, 2001);
    let hash1b = block1b.hash();
    blockchain.add_block(block1b).unwrap();

    assert!(blockchain.get_block(&hash1a).is_some());
    assert!(blockchain.get_block(&hash1b).is_some());
    assert_eq!(blockchain.get_tip(), Some(&hash1a));
}

#[test]
fn test_longest_chain_fork_choice() {
    let mut blockchain = Blockchain::new();
    let genesis = Block::new([0u8; 32], vec![], 0, 1000);
    let genesis_hash = genesis.hash();
    blockchain.add_block(genesis).unwrap();

    let block1a = Block::new(genesis_hash, vec![], 1, 2000);
    let hash1a = block1a.hash();
    blockchain.add_block(block1a).unwrap();
    let block2a = Block::new(hash1a, vec![], 2, 3000);
    let hash2a = block2a.hash();
    blockchain.add_block(block2a).unwrap();
    let block3a = Block::new(hash2a, vec![], 3, 4000);
    let hash3a = block3a.hash();
    blockchain.add_block(block3a).unwrap();
    assert_eq!(blockchain.get_tip(), Some(&hash3a));

    let block1b = Block::new(genesis_hash, vec![], 1, 2001);
    let hash1b = block1b.hash();
    blockchain.add_block(block1b).unwrap();
    let block2b = Block::new(hash1b, vec![], 2, 3001);
    let hash2b = block2b.hash();
    blockchain.add_block(block2b).unwrap();
    assert_eq!(blockchain.get_tip(), Some(&hash3a));

    let block3b = Block::new(hash2b, vec![], 3, 4001);
    let hash3b = block3b.hash();
    blockchain.add_block(block3b).unwrap();
    assert_eq!(blockchain.get_tip(), Some(&hash3a));

    let block4b = Block::new(hash3b, vec![], 4, 5000);
    let hash4b = block4b.hash();
    blockchain.add_block(block4b).unwrap();
    assert_eq!(blockchain.get_tip(), Some(&hash4b));
}

#[test]
fn test_fork_resolution() {
    let mut blockchain = Blockchain::new();
    let alice_key = Keypair::from_secret([11u8; 32]);
    let bob_key = Keypair::from_secret([12u8; 32]);

    let genesis = Block::new([0u8; 32], vec![], 0, 1000);
    let genesis_hash = genesis.hash();
    blockchain.add_block(genesis).unwrap();

    let tx_a = Transaction::new(alice_key.public(), bob_key.public(), 20, 0);
    let sig_a = sign(&tx_a, &alice_key);
    let block1a = Block::new(genesis_hash, vec![SignedTransaction::new(tx_a, sig_a)], 1, 2000);
    let hash1a = block1a.hash();
    blockchain.add_block(block1a.clone()).unwrap();
    assert_eq!(blockchain.get_tip(), Some(&hash1a));

    let tx_b = Transaction::new(alice_key.public(), bob_key.public(), 30, 0);
    let sig_b = sign(&tx_b, &alice_key);
    let block1b = Block::new(genesis_hash, vec![SignedTransaction::new(tx_b, sig_b)], 1, 2001);
    let hash1b = block1b.hash();
    blockchain.add_block(block1b.clone()).unwrap();
    assert_eq!(blockchain.get_tip(), Some(&hash1a));

    assert!(blockchain.get_block(&hash1a).is_some());
    assert!(blockchain.get_block(&hash1b).is_some());
    assert_eq!(blockchain.len(), 3);

    let tx2 = Transaction::new(alice_key.public(), bob_key.public(), 10, 1);
    let sig2 = sign(&tx2, &alice_key);
    let block2a = Block::new(hash1a, vec![SignedTransaction::new(tx2, sig2)], 2, 3000);
    let hash2a = block2a.hash();
    blockchain.add_block(block2a).unwrap();
    assert_eq!(blockchain.get_tip(), Some(&hash2a));

    let chain = blockchain.get_canonical_chain();
    assert_eq!(chain.len(), 3);
    assert_eq!(chain[0].height, 0);
    assert_eq!(chain[1].height, 1);
    assert_eq!(chain[2].height, 2);
    assert_eq!(chain[0].hash(), genesis_hash);
    assert_eq!(chain[1].hash(), hash1a);
    assert_eq!(chain[2].hash(), hash2a);
}

#[test]
fn test_chain_reorg_on_longer_fork() {
    let mut blockchain = Blockchain::new();
    let genesis = Block::new([0u8; 32], vec![], 0, 1000);
    let genesis_hash = genesis.hash();
    blockchain.add_block(genesis).unwrap();

    let block1a = Block::new(genesis_hash, vec![], 1, 2000);
    let hash1a = block1a.hash();
    blockchain.add_block(block1a).unwrap();
    let block2a = Block::new(hash1a, vec![], 2, 3000);
    let hash2a = block2a.hash();
    blockchain.add_block(block2a).unwrap();
    assert_eq!(blockchain.get_tip(), Some(&hash2a));

    let block1b = Block::new(genesis_hash, vec![], 1, 2001);
    let hash1b = block1b.hash();
    blockchain.add_block(block1b).unwrap();
    let block2b = Block::new(hash1b, vec![], 2, 3001);
    let hash2b = block2b.hash();
    blockchain.add_block(block2b).unwrap();
    assert_eq!(blockchain.get_tip(), Some(&hash2a));

    let block3b = Block::new(hash2b, vec![], 3, 4000);
    let hash3b = block3b.hash();
    blockchain.add_block(block3b).unwrap();
    assert_eq!(blockchain.get_tip(), Some(&hash3b));

    let chain = blockchain.get_canonical_chain();
    assert_eq!(chain.len(), 4);
    assert_eq!(chain[0].hash(), genesis_hash);
    assert_eq!(chain[1].hash(), hash1b);
    assert_eq!(chain[2].hash(), hash2b);
    assert_eq!(chain[3].hash(), hash3b);
}

#[test]
fn canonical_chain_stops_at_missing_parent() {
    let mut blockchain = Blockchain::new();
    let orphan = Block::new([9u8; 32], vec![], 5, 1);
    let orphan_hash = orphan.hash();
    blockchain.add_block(orphan).unwrap();
    let child = Block::new(orphan_hash, vec![], 6, 2);
    blockchain.add_block(child).unwrap();
    let chain = blockchain.get_canonical_chain();
    assert_eq!(chain.len(), 2);
    assert_eq!(chain[0].hash(), orphan_hash);
    assert_eq!(chain[1].prev_hash, orphan_hash);
}

#[test]
fn re_adding_a_block_keeps_one_copy() {
    let mut blockchain = Blockchain::new();
    let genesis = Block::new([0u8; 32], vec![], 0, 1000);
    blockchain.add_block(genesis.clone()).unwrap();
    blockchain.add_block(genesis.clone()).unwrap();
    assert_eq!(blockchain.len(), 1);
    assert_eq!(blockchain.get_block(&genesis.hash()).unwrap().timestamp, 1000);
    assert!(blockchain.get_block(&[7u8; 32]).is_none());
}

#[test]
fn cloned_chain_is_independent() {
    let mut blockchain = Blockchain::new();
    let genesis = Block::new([0u8; 32], vec![], 0, 1000);
    let genesis_hash = genesis.hash();
    blockchain.add_block(genesis).unwrap();
    let copy = blockchain.clone();
    let next = Block::new(genesis_hash, vec![], 1, 2000);
    blockchain.add_block(next).unwrap();
    assert_eq!(copy.len(), 1);
    assert_eq!(copy.get_tip(), Some(&genesis_hash));
    assert_eq!(blockchain.len(), 2);
}

#[test]
fn tip_is_first_block_of_greatest_height() {
    // heights in arrival order: 1, 3, 2, 3, 0 — the first height-3 block wins
    let heights = [1u64, 3, 2, 3, 0];
    let mut blockchain = Blockchain::new();
    let mut hashes = Vec::new();
    for (i, h) in heights.iter().enumerate() {
        let b = Block::new([i as u8; 32], vec![], *h, 100 + i as u64);
        hashes.push(b.hash());
        blockchain.add_block(b).unwrap();
    }
    assert_eq!(blockchain.get_tip(), Some(&hashes[1]));
    assert_eq!(blockchain.len(), 5);
    for h in &hashes {
        assert_eq!(blockchain.get_block(h).unwrap().hash(), *h);
    }
}
