//! Ledger, mining, index and balance behaviour on concrete chains.

use blockchain_rust::block::Block;
use blockchain_rust::blockchain::Blockchain;
use blockchain_rust::errors::Error;
use blockchain_rust::transaction::Transaction;
use blockchain_rust::utxoset::{sum_outputs, UTXOSet};

fn balance(utxo: &UTXOSet, owner: &[u8]) -> i64 {
    let outs = utxo.find_UTXO(owner);
    sum_outputs(&outs).unwrap()
}

#[test]
fn test_blockchain() {
    let bc = Blockchain::create_blockchain_with_difficulty(String::from("A"), 1).unwrap();
    let blocks: Vec<Block> = (0..bc.block_count())
        .map(|i| blockchain_rust::block::clone_block(bc.get_block_at(i)))
        .collect();
    let b = Blockchain::new(blocks).unwrap();
    let mut it = b.iter();
    while let Some(item) = it.next() {
        println!("Item: {:?}", item)
    }
}

#[test]
fn mined_block_has_leading_zeros() {
    let cb = Transaction::new_coinbase(String::from("miner"), String::new()).unwrap();
    let block = Block::mine(vec![cb], String::new(), 0, 2).unwrap();
    let hash = block.get_hash();
    assert_eq!(hash.len(), 64);
    assert!(hash.starts_with("00"));
}

#[test]
fn genesis_pays_the_reward_address() {
    // Scenario: a fresh ledger rewarding "A" shows a balance of 100 for "A".
    let bc = Blockchain::create_blockchain_with_difficulty(String::from("A"), 1).unwrap();
    let mut utxo = UTXOSet::new(bc);
    utxo.reindex();
    assert_eq!(balance(&utxo, b"A"), 100);
    assert_eq!(balance(&utxo, b"B"), 0);
}

#[test]
fn send_moves_value() {
    // Scenario: after sending 40 from "A" to "B", the balances read 60 and
    // 40; the spend block carries no extra coinbase, so no reward is added.
    let bc = Blockchain::create_blockchain_with_difficulty(String::from("A"), 1).unwrap();
    let mut utxo = UTXOSet::new(bc);
    utxo.reindex();
    let tx = Transaction::new_UTXO(b"A", b"B", 40, &utxo).unwrap();
    let block = utxo.blockchain.add_block(vec![tx]).unwrap();
    utxo.update(&block);
    assert_eq!(balance(&utxo, b"A"), 60);
    assert_eq!(balance(&utxo, b"B"), 40);
}

#[test]
fn insufficient_funds_reports_balance() {
    let bc = Blockchain::create_blockchain_with_difficulty(String::from("A"), 1).unwrap();
    let mut utxo = UTXOSet::new(bc);
    utxo.reindex();
    match Transaction::new_UTXO(b"A", b"B", 1000, &utxo) {
        Err(Error::InsufficientFunds(have)) => assert_eq!(have, 100),
        other => panic!("expected insufficient funds, got {:?}", other),
    }
}

#[test]
fn reindex_equals_incremental_updates() {
    // Build a chain with several spends, then compare a full rebuild with an
    // index maintained by per-block updates from empty.
    let bc = Blockchain::create_blockchain_with_difficulty(String::from("A"), 1).unwrap();
    let mut utxo = UTXOSet::new(bc);
    utxo.reindex();
    let tx1 = Transaction::new_UTXO(b"A", b"B", 30, &utxo).unwrap();
    let b1 = utxo.blockchain.add_block(vec![tx1]).unwrap();
    utxo.update(&b1);
    let tx2 = Transaction::new_UTXO(b"B", b"C", 10, &utxo).unwrap();
    let tx3 = Transaction::new_UTXO(b"A", b"C", 50, &utxo).unwrap();
    let b2 = utxo.blockchain.add_block(vec![tx2, tx3]).unwrap();
    utxo.update(&b2);

    // rebuilt from scratch over the same chain
    let blocks: Vec<Block> = (0..utxo.blockchain.block_count())
        .map(|i| blockchain_rust::block::clone_block(utxo.blockchain.get_block_at(i)))
        .collect();
    let mut fresh = UTXOSet::new(Blockchain::new(blocks).unwrap());
    fresh.reindex();

    assert_eq!(
        utxo.count_transactions().unwrap(),
        fresh.count_transactions().unwrap()
    );
    for owner in [b"A".as_slice(), b"B".as_slice(), b"C".as_slice()] {
        assert_eq!(balance(&utxo, owner), balance(&fresh, owner));
    }
    assert_eq!(utxo.index.len(), fresh.index.len());
    for (e1, e2) in utxo.index.iter().zip(fresh.index.iter()) {
        assert_eq!(e1.txid, e2.txid);
        assert_eq!(e1.outputs.len(), e2.outputs.len());
        for (o1, o2) in e1.outputs.iter().zip(e2.outputs.iter()) {
            assert_eq!(o1.idx, o2.idx);
            assert_eq!(o1.out.value, o2.out.value);
            assert_eq!(o1.out.pub_key_hash, o2.out.pub_key_hash);
        }
    }
}

#[test]
fn index_balance_matches_chain_scan() {
    // Two computation paths: the maintained index and a direct scan of the
    // whole chain must price every address identically.
    let bc = Blockchain::create_blockchain_with_difficulty(String::from("A"), 1).unwrap();
    let mut utxo = UTXOSet::new(bc);
    utxo.reindex();
    let tx = Transaction::new_UTXO(b"A", b"B", 25, &utxo).unwrap();
    let b1 = utxo.blockchain.add_block(vec![tx]).unwrap();
    utxo.update(&b1);

    let scan = utxo.blockchain.find_UTXO();
    for owner in [b"A".as_slice(), b"B".as_slice()] {
        let mut scanned: i64 = 0;
        for entry in &scan {
            for io in &entry.outputs {
                if io.out.pub_key_hash == owner {
                    scanned += io.out.value as i64;
                }
            }
        }
        assert_eq!(balance(&utxo, owner), scanned);
    }
}

#[test]
fn spendable_outputs_cover_the_amount() {
    let bc = Blockchain::create_blockchain_with_difficulty(String::from("A"), 1).unwrap();
    let mut utxo = UTXOSet::new(bc);
    utxo.reindex();
    let (acc, sel) = utxo.find_spendable_outputs(b"A", 70).unwrap();
    assert!(acc >= 70);
    assert_eq!(sel.len(), 1);
    assert_eq!(sel[0].outs, vec![0]);
    let (acc2, sel2) = utxo.find_spendable_outputs(b"nobody", 10).unwrap();
    assert_eq!(acc2, 0);
    assert!(sel2.is_empty());
}

#[test]
fn find_transaction_and_errors() {
    let bc = Blockchain::create_blockchain_with_difficulty(String::from("A"), 1).unwrap();
    let genesis_tx_id = bc.get_block_at(0).get_transactions()[0].id.clone();
    assert!(bc.find_transaction(&genesis_tx_id).is_ok());
    match bc.find_transaction(&String::from("no such id")) {
        Err(Error::NotFound) => {}
        other => panic!("expected not found, got {:?}", other),
    }
    match Blockchain::new(Vec::new()) {
        Err(Error::NotFound) => {}
        other => panic!("expected not found, got {:?}", other),
    }
}

#[test]
fn append_block_rejects_broken_links() {
    let bc1 = Blockchain::create_blockchain_with_difficulty(String::from("A"), 1).unwrap();
    let mut bc2 = Blockchain::create_blockchain_with_difficulty(String::from("B"), 1).unwrap();
    // a block that does not extend bc2's tip
    let cb = Transaction::new_coinbase(String::from("C"), String::new()).unwrap();
    let foreign = Block::mine(vec![cb], bc1.get_block_at(0).get_hash(), 1, 1).unwrap();
    match bc2.append_block(foreign) {
        Err(Error::Validation) => {}
        other => panic!("expected validation error, got {:?}", other),
    }
}

#[test]
fn iterate_walks_tip_to_genesis() {
    let bc = Blockchain::create_blockchain_with_difficulty(String::from("A"), 1).unwrap();
    let mut utxo = UTXOSet::new(bc);
    utxo.reindex();
    let tx = Transaction::new_UTXO(b"A", b"B", 10, &utxo).unwrap();
    let b1 = utxo.blockchain.add_block(vec![tx]).unwrap();
    utxo.update(&b1);
    let mut it = utxo.blockchain.iter();
    let mut yielded = Vec::new();
    while let Some(b) = it.next() {
        yielded.push(b);
    }
    assert_eq!(yielded.len(), 2);
    for w in yielded.windows(2) {
        assert_eq!(w[0].get_prev_hash(), w[1].get_hash());
    }
    assert_eq!(yielded.last().unwrap().get_prev_hash(), "");
}

#[test]
fn absurd_amounts_overflow() {
    // Sending the most negative amount would need a change output one past
    // the 32-bit maximum.
    let bc = Blockchain::create_blockchain_with_difficulty(String::from("A"), 1).unwrap();
    let mut utxo = UTXOSet::new(bc);
    utxo.reindex();
    match Transaction::new_UTXO(b"A", b"B", i32::MIN, &utxo) {
        Err(Error::Overflow) => {}
        other => panic!("expected overflow, got {:?}", other),
    }
}
