use sha2::{Digest, Sha256};
use zkp_learn::crypto::{sign, verify, CryptoError, Keypair, Signature, SignedTransaction};
use zkp_learn::mempool::{Mempool, MempoolError};
use zkp_learn::transaction::{HashablePublicKey, HexError, Transaction, TxId};

fn key(n: u8) -> Keypair {
    Keypair::from_secret([n; 32])
}

fn signed(kp: &Keypair, to: &Keypair, amount: u64, nonce: u64) -> SignedTransaction {
    let tx = Transaction::new(kp.public(), to.public(), amount, nonce);
    let sig = sign(&tx, kp);
    SignedTransaction::new(tx, sig)
}

// ---- transaction ----

#[test]
fn test_transaction_serialization() {
    let tx = Transaction::new(key(1).public(), key(2).public(), 100, 1);
    let serialized1 = tx.serialize();
    let serialized2 = tx.serialize();
    assert_eq!(serialized1, serialized2, "Serialization must be deterministic");
}

#[test]
fn serialization_layout() {
    let from = HashablePublicKey([7u8; 32]);
    let to = HashablePublicKey([9u8; 32]);
    let tx = Transaction::new(from, to, 0x0102, 5);
    let bytes = tx.serialize();
    assert_eq!(bytes.len(), 80);
    assert_eq!(&bytes[0..32], &[7u8; 32]);
    assert_eq!(&bytes[32..64], &[9u8; 32]);
    assert_eq!(&bytes[64..72], &0x0102u64.to_le_bytes());
    assert_eq!(&bytes[72..80], &5u64.to_le_bytes());
}

#[test]
fn test_tx_id_deterministic() {
    let tx = Transaction::new(key(1).public(), key(2).public(), 100, 1);
    let id1 = tx.compute_id();
    let id2 = tx.compute_id();
    assert_eq!(id1, id2, "TxId must be deterministic");
}

#[test]
fn test_tx_id_unique() {
    let tx1 = Transaction::new(key(1).public(), key(2).public(), 100, 1);
    let tx2 = Transaction::new(key(1).public(), key(2).public(), 200, 1);
    assert_ne!(tx1.compute_id(), tx2.compute_id(), "Different transactions should have different TxIds");
}

#[test]
fn tx_id_is_sha256_of_encoding() {
    let tx = Transaction::new(HashablePublicKey([1u8; 32]), HashablePublicKey([2u8; 32]), 3, 4);
    let digest = Sha256::digest(&tx.serialize());
    let mut expected = [0u8; 32];
    expected.copy_from_slice(&digest);
    assert_eq!(tx.compute_id(), TxId(expected));
    assert_eq!(TxId::from_tx(&tx), TxId(expected));
}

#[test]
fn test_transaction_id_consistency() {
    let tx = Transaction::new(key(1).public(), key(2).public(), 100, 1);
    let id1 = tx.compute_id();
    let id2 = tx.compute_id();
    let id3 = TxId::from_tx(&tx);
    assert_eq!(id1, id2);
    assert_eq!(id2, id3);
}

#[test]
fn tx_id_hex_round_trip() {
    let mut bytes = [0u8; 32];
    bytes[0] = 0xab;
    bytes[31] = 0x01;
    let id = TxId(bytes);
    let hex = id.to_hex();
    assert_eq!(hex.len(), 64);
    assert!(hex.starts_with("ab00"));
    assert!(hex.ends_with("01"));
    assert_eq!(id.to_string(), format!("0x{}", hex));
    assert_eq!(TxId::from_hex(&hex).unwrap(), id);
    assert_eq!(TxId::from_hex(&hex.to_uppercase()).unwrap(), id);
}

#[test]
fn tx_id_hex_errors() {
    assert_eq!(TxId::from_hex("abc"), Err(HexError::OddLength));
    assert_eq!(TxId::from_hex("abcd"), Err(HexError::InvalidStringLength));
    assert_eq!(TxId::from_hex("zz"), Err(HexError::InvalidHexCharacter { c: 'z', index: 0 }));
    assert_eq!(TxId::from_hex("0g"), Err(HexError::InvalidHexCharacter { c: 'g', index: 1 }));
    assert_eq!(TxId::from_hex(""), Err(HexError::InvalidStringLength));
}

// ---- signatures ----

#[test]
fn public_key_is_ed25519_of_secret() {
    let secret = [3u8; 32];
    let sk = ed25519_dalek::SecretKey::from_bytes(&secret).unwrap();
    let pk = ed25519_dalek::PublicKey::from(&sk);
    assert_eq!(Keypair::from_secret(secret).public(), HashablePublicKey(pk.to_bytes()));
}

#[test]
fn test_sign_and_verify() {
    let keypair = key(1);
    let tx = Transaction::new(keypair.public(), key(2).public(), 100, 1);
    let signature = sign(&tx, &keypair);
    assert!(verify(&tx, &signature));
}

#[test]
fn signature_is_deterministic_and_nontrivial() {
    let keypair = key(1);
    let tx = Transaction::new(keypair.public(), key(2).public(), 100, 1);
    assert_eq!(sign(&tx, &keypair), sign(&tx, &keypair));
    assert_ne!(sign(&tx, &keypair), Signature([0u8; 64]));
    assert!(!verify(&tx, &Signature([0u8; 64])));
}

#[test]
fn test_signed_transaction() {
    let keypair = key(1);
    let tx = Transaction::new(keypair.public(), key(2).public(), 100, 1);
    let signature = sign(&tx, &keypair);
    let signed_tx = SignedTransaction::new(tx.clone(), signature);
    assert!(signed_tx.verify());
    assert_eq!(signed_tx.id(), TxId::from_tx(&tx));
    assert_eq!(*signed_tx.transaction(), tx);
    assert_eq!(*signed_tx.signature(), signature);
}

#[test]
fn test_modified_transaction_fails_verification() {
    let keypair = key(1);
    let mut tx = Transaction::new(keypair.public(), key(2).public(), 100, 1);
    let signature = sign(&tx, &keypair);
    tx.amount = 200;
    assert!(!verify(&tx, &signature));
}

#[test]
fn test_wrong_key_fails_verification() {
    let keypair1 = key(1);
    let keypair2 = key(2);
    let recipient = key(3);
    let tx = Transaction::new(keypair1.public(), recipient.public(), 100, 1);
    let signature = sign(&tx, &keypair1);
    let tx_wrong_sender = Transaction::new(keypair2.public(), recipient.public(), 100, 1);
    assert!(!verify(&tx_wrong_sender, &signature));
}

#[test]
fn test_sign_then_verify_passes() {
    let keypair = key(1);
    let tx = Transaction::new(keypair.public(), key(2).public(), 500, 42);
    let signature = sign(&tx, &keypair);
    let signed_tx = SignedTransaction::new(tx, signature);
    assert!(signed_tx.verify());
}

#[test]
fn test_modifying_amount_breaks_signature() {
    let keypair = key(1);
    let mut tx = Transaction::new(keypair.public(), key(2).public(), 100, 1);
    let signature = sign(&tx, &keypair);
    tx.amount = 200;
    assert!(!verify(&tx, &signature));
}

#[test]
fn test_modifying_nonce_breaks_signature() {
    let keypair = key(1);
    let mut tx = Transaction::new(keypair.public(), key(2).public(), 100, 1);
    let signature = sign(&tx, &keypair);
    tx.nonce = 2;
    assert!(!verify(&tx, &signature));
}

#[test]
fn test_modifying_recipient_breaks_signature() {
    let keypair = key(1);
    let mut tx = Transaction::new(keypair.public(), key(2).public(), 100, 1);
    let signature = sign(&tx, &keypair);
    tx.to_pubkey = key(3).public();
    assert!(!verify(&tx, &signature));
}

#[test]
fn error_texts() {
    assert_eq!(CryptoError::InvalidSignature.to_string(), "Invalid signature format");
    assert_eq!(CryptoError::VerificationFailed.to_string(), "Signature verification failed");
    assert_eq!(CryptoError::InvalidTransaction.to_string(), "Invalid transaction for signing");
    assert_eq!(MempoolError::InvalidSignature.to_string(), "Invalid transaction signature");
    assert_eq!(MempoolError::InvalidNonce.to_string(), "Invalid transaction nonce");
    assert_eq!(MempoolError::DuplicateTransaction.to_string(), "Transaction already exists");
    assert_eq!(MempoolError::InvalidTransaction.to_string(), "Invalid transaction format");
}

// ---- mempool ----

#[test]
fn test_add_valid_transaction() {
    let mut mempool = Mempool::new();
    assert!(mempool.add_transaction(signed(&key(1), &key(2), 100, 1)).is_ok());
    assert_eq!(mempool.len(), 1);
}

#[test]
fn test_complete_transaction_workflow() {
    let alice = key(1);
    let bob = key(2);
    let signed_tx = signed(&alice, &bob, 1000, 1);
    assert!(signed_tx.verify());
    let mut mempool = Mempool::new();
    assert!(mempool.add_transaction(signed_tx).is_ok());
    assert_eq!(mempool.len(), 1);
}

#[test]
fn test_reject_duplicate_transaction() {
    let signed_tx = signed(&key(1), &key(2), 100, 1);
    let mut mempool = Mempool::new();
    assert!(mempool.add_transaction(signed_tx.clone()).is_ok());
    assert_eq!(mempool.len(), 1);
    assert_eq!(mempool.add_transaction(signed_tx), Err(MempoolError::InvalidNonce));
    assert_eq!(mempool.len(), 1);
}

#[test]
fn test_nonce_tracking() {
    let keypair = key(1);
    let recipient = key(2);
    let mut mempool = Mempool::new();
    assert!(mempool.add_transaction(signed(&keypair, &recipient, 100, 1)).is_ok());
    assert_eq!(
        mempool.add_transaction(signed(&keypair, &recipient, 50, 1)),
        Err(MempoolError::InvalidNonce)
    );
    assert!(mempool.add_transaction(signed(&keypair, &recipient, 200, 2)).is_ok());
    assert_eq!(mempool.len(), 2);
    assert_eq!(mempool.get_account_nonce(&keypair.public()), 2);
}

#[test]
fn test_reject_invalid_signature() {
    let keypair1 = key(1);
    let keypair2 = key(2);
    let recipient = key(3);
    let tx = Transaction::new(keypair1.public(), recipient.public(), 100, 1);
    let signature = sign(&tx, &keypair1);
    let wrong_tx = Transaction::new(keypair2.public(), recipient.public(), 100, 1);
    let signed_tx = SignedTransaction::new(wrong_tx, signature);
    let mut mempool = Mempool::new();
    assert_eq!(mempool.add_transaction(signed_tx), Err(MempoolError::InvalidSignature));
    assert!(mempool.is_empty());
}

#[test]
fn test_remove_transaction() {
    let signed_tx = signed(&key(1), &key(2), 100, 1);
    let tx_id = signed_tx.tx_id;
    let mut mempool = Mempool::new();
    assert!(mempool.add_transaction(signed_tx).is_ok());
    assert_eq!(mempool.len(), 1);
    let removed = mempool.remove_transaction(&tx_id);
    assert!(removed.is_some());
    assert_eq!(removed.unwrap().tx_id, tx_id);
    assert_eq!(mempool.len(), 0);
    assert!(mempool.remove_transaction(&tx_id).is_none());
}

#[test]
fn test_mempool_nonce_enforcement() {
    let keypair = key(1);
    let recipient = key(2);
    let mut mempool = Mempool::new();
    assert!(mempool.add_transaction(signed(&keypair, &recipient, 100, 1)).is_ok());
    assert!(mempool.add_transaction(signed(&keypair, &recipient, 50, 0)).is_err());
    assert!(mempool.add_transaction(signed(&keypair, &recipient, 200, 2)).is_ok());
    assert_eq!(mempool.len(), 2);
}

#[test]
fn test_mempool_deduplication() {
    let keypair = key(1);
    let recipient = key(2);
    let mut mempool = Mempool::new();
    let tx = Transaction::new(keypair.public(), recipient.public(), 100, 1);
    let signature1 = sign(&tx, &keypair);
    let signature2 = sign(&tx, &keypair);
    let signed_tx1 = SignedTransaction::new(tx.clone(), signature1);
    let signed_tx2 = SignedTransaction::new(tx, signature2);
    assert!(mempool.add_transaction(signed_tx1).is_ok());
    assert!(mempool.add_transaction(signed_tx2).is_err());
    assert_eq!(mempool.len(), 1);
}

#[test]
fn removed_nonce_still_blocks_replay() {
    let keypair = key(1);
    let recipient = key(2);
    let st = signed(&keypair, &recipient, 100, 1);
    let id = st.tx_id;
    let mut mempool = Mempool::new();
    assert!(mempool.add_transaction(st.clone()).is_ok());
    mempool.remove_transaction(&id);
    assert_eq!(mempool.add_transaction(st), Err(MempoolError::InvalidNonce));
    assert_eq!(mempool.get_account_nonce(&keypair.public()), 1);
}

#[test]
fn test_multi_user_mempool() {
    let alice = key(1);
    let bob = key(2);
    let charlie = key(3);
    let mut mempool = Mempool::new();
    assert!(mempool.add_transaction(signed(&alice, &bob, 100, 1)).is_ok());
    assert!(mempool.add_transaction(signed(&bob, &charlie, 50, 1)).is_ok());
    assert!(mempool.add_transaction(signed(&charlie, &alice, 25, 1)).is_ok());
    assert_eq!(mempool.len(), 3);
    assert_eq!(mempool.get_account_nonce(&alice.public()), 1);
    assert_eq!(mempool.get_account_nonce(&bob.public()), 1);
    assert_eq!(mempool.get_account_nonce(&charlie.public()), 1);

    let ids = mempool.transaction_ids();
    assert_eq!(ids.len(), 3);
    let by_bob = mempool.transactions_by_sender(&bob.public());
    assert_eq!(by_bob.len(), 1);
    assert_eq!(by_bob[0].tx.amount, 50);
    assert_eq!(mempool.transactions().len(), 3);
    assert!(mempool.get_transaction(&ids[2]).is_some());
    mempool.clear();
    assert!(mempool.is_empty());
    assert_eq!(mempool.get_account_nonce(&alice.public()), 0);
}
