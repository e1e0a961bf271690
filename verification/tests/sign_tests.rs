//! Signing and verification with real key material, and hashing behaviour.

use crypto::digest::Digest;
use crypto::ed25519;
use crypto::ripemd160::Ripemd160;
use crypto::sha2::Sha256;

use blockchain_rust::codec::Wire;
use blockchain_rust::errors::Error;
use blockchain_rust::hashing::hash_pub_key;
use blockchain_rust::transaction::Transaction;
use blockchain_rust::tx::{TXInput, TXOutput};

fn keypair() -> (Vec<u8>, Vec<u8>) {
    let (sk, pk) = ed25519::keypair(b"0123456789abcdef0123456789abcdef");
    (sk.to_vec(), pk.to_vec())
}

fn prev_for(pk: &[u8]) -> Transaction {
    Transaction {
        id: String::from("prev1"),
        vin: Vec::new(),
        vout: vec![TXOutput { value: 10, pub_key_hash: hash_pub_key(pk) }],
    }
}

fn spend_of(pk: &[u8]) -> Transaction {
    Transaction {
        id: String::from("spend1"),
        vin: vec![TXInput {
            txid: String::from("prev1"),
            vout: 0,
            signature: Vec::new(),
            pub_key: pk.to_vec(),
        }],
        vout: vec![TXOutput { value: 10, pub_key_hash: vec![7, 7] }],
    }
}

#[test]
fn sign_then_verify_succeeds() {
    let (sk, pk) = keypair();
    let prevs = vec![prev_for(&pk)];
    let mut tx = spend_of(&pk);
    tx.sign(&sk, &prevs).unwrap();
    assert_eq!(tx.vin[0].signature.len(), 64);
    assert!(tx.verify(&prevs));
}

#[test]
fn tampered_signature_fails() {
    let (sk, pk) = keypair();
    let prevs = vec![prev_for(&pk)];
    let mut tx = spend_of(&pk);
    tx.sign(&sk, &prevs).unwrap();
    tx.vin[0].signature[0] ^= 0xff;
    assert!(!tx.verify(&prevs));
}

#[test]
fn tampered_public_key_fails() {
    let (sk, pk) = keypair();
    let prevs = vec![prev_for(&pk)];
    let mut tx = spend_of(&pk);
    tx.sign(&sk, &prevs).unwrap();
    tx.vin[0].pub_key[0] ^= 0xff;
    assert!(!tx.verify(&prevs));
}

#[test]
fn signing_without_previous_transaction_fails() {
    let (sk, pk) = keypair();
    let mut tx = spend_of(&pk);
    match tx.sign(&sk, &Vec::new()) {
        Err(Error::Validation) => {}
        other => panic!("expected validation error, got {:?}", other),
    }
    assert!(tx.vin[0].signature.is_empty());
}

#[test]
fn coinbase_needs_no_signature() {
    let (sk, _pk) = keypair();
    let mut cb = Transaction::new_coinbase(String::from("A"), String::new()).unwrap();
    assert!(cb.is_coinbase());
    cb.sign(&sk, &Vec::new()).unwrap();
    assert!(cb.verify(&Vec::new()));
}

#[test]
fn unlocking_uses_the_real_key_hash() {
    // The owner hash is RIPEMD-160 of SHA-256 of the key: recompute it with
    // the outside crate directly and hold the library to it.
    let pk = b"some public key bytes";
    let mut sha = Sha256::new();
    sha.input(pk);
    let mut sha_out = vec![0u8; 32];
    sha.result(&mut sha_out);
    let mut rip = Ripemd160::new();
    rip.input(&sha_out);
    let mut expected = vec![0u8; 20];
    rip.result(&mut expected);

    let vin = TXInput {
        txid: String::from("x"),
        vout: 0,
        signature: Vec::new(),
        pub_key: pk.to_vec(),
    };
    assert!(vin.can_unlock_output_with(&expected));
    assert!(!vin.can_unlock_output_with(pk));
    assert_eq!(hash_pub_key(pk), expected);
}

#[test]
fn outputs_lock_by_address_body() {
    let out = TXOutput::new(15, String::from("1A1zP1eP5QGefi2DMPTfTL5SLmv7DivfNa")).unwrap();
    assert_eq!(out.value, 15);
    assert_eq!(out.pub_key_hash.len(), 20);
    assert_ne!(out.pub_key_hash, b"1A1zP1eP5QGefi2DMPTfTL5SLmv7DivfNa".to_vec());
    assert!(out.is_locked_with_key(&out.pub_key_hash.clone()));
    match TXOutput::new(1, String::from("x")) {
        Err(Error::Validation) => {}
        other => panic!("expected validation error, got {:?}", other),
    }
    // a colon followed by fewer than ten characters falls in the class the
    // outside parser cannot be fed, and is rejected up front
    match TXOutput::new(1, String::from("bitcoincash:qpzry9x8g")) {
        Err(Error::Validation) => {}
        other => panic!("expected validation error, got {:?}", other),
    }
}

#[test]
fn trim_copy_clears_credentials() {
    let (_sk, pk) = keypair();
    let tx = spend_of(&pk);
    let trimmed = tx.trim_copy();
    assert!(trimmed.id.is_empty());
    assert!(trimmed.vin[0].signature.is_empty());
    assert!(trimmed.vin[0].pub_key.is_empty());
    assert_eq!(trimmed.vin[0].txid, tx.vin[0].txid);
    assert_eq!(trimmed.vout[0].value, tx.vout[0].value);
}

#[test]
fn transaction_ids_are_real_digests() {
    // A transaction id must be the hex SHA-256 of its encoding with an empty
    // id: recompute it with the outside crate over the library's own bytes.
    let tx = Transaction::new_coinbase(String::from("A"), String::from("memo")).unwrap();
    let unsigned = Transaction { id: String::new(), vin: tx.vin.clone(), vout: tx.vout.clone() };
    let mut bytes = Vec::new();
    unsigned.encode(&mut bytes);
    let mut sha = Sha256::new();
    sha.input(&bytes);
    assert_eq!(tx.id, sha.result_str());
    assert_eq!(tx.id.len(), 64);
}
