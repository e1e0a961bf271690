//! The synchronization protocol driven over the real wire encoding.

use blockchain_rust::block::clone_block;
use blockchain_rust::block::Block;
use blockchain_rust::blockchain::Blockchain;
use blockchain_rust::server::{bytes_to_cmd, message_to_bytes, Message, Outbound, Server, Txmsg};
use blockchain_rust::transaction::Transaction;
use blockchain_rust::utxoset::{sum_outputs, UTXOSet};

fn chain_of_height(h: usize) -> Blockchain {
    let mut bc = Blockchain::create_blockchain_with_difficulty(String::from("A"), 1).unwrap();
    for i in 0..h {
        let cb =
            Transaction::new_coinbase(String::from("A"), format!("block number {}", i)).unwrap();
        bc.add_block(vec![cb]).unwrap();
    }
    bc
}

fn prefix_of(bc: &Blockchain, n: usize) -> Blockchain {
    let blocks: Vec<Block> = (0..n).map(|i| clone_block(bc.get_block_at(i))).collect();
    Blockchain::new(blocks).unwrap()
}

fn dispatch(s: &mut Server, bytes: &Vec<u8>) -> Vec<Outbound> {
    match bytes_to_cmd(bytes).unwrap() {
        Message::Version(v) => s.handle_version(&v),
        Message::GetBlock(g) => vec![s.handle_get_blocks(&g)],
        Message::Inv(i) => s.handle_inv(&i),
        Message::GetData(g) => s.handle_get_data(&g),
        Message::Block(b) => s.handle_block(b),
        Message::Tx(t) => s.handle_tx(t).unwrap(),
        Message::Addr(a) => {
            s.handle_addr(a);
            Vec::new()
        }
    }
}

#[test]
fn two_nodes_converge() {
    // Scenario: nodes at heights 5 and 2; after one handshake, hash-list,
    // inventory and data round the shorter node holds the full chain and an
    // index equal to a fresh rebuild.
    let bc1 = chain_of_height(5);
    let bc2 = prefix_of(&bc1, 3);
    assert_eq!(bc1.get_best_height(), 5);
    assert_eq!(bc2.get_best_height(), 2);

    let mut utxo1 = UTXOSet::new(bc1);
    utxo1.reindex();
    let mut utxo2 = UTXOSet::new(bc2);
    utxo2.reindex();

    let mut n1 = Server::new("3000", "", utxo1).unwrap();
    let mut n2 = Server::new("3001", "", utxo2).unwrap();
    let n2_addr = String::from("localhost:3001");

    // node one introduces itself to node two
    let hello = n1.send_version(&n2_addr).unwrap();
    let mut queue: Vec<Outbound> = vec![hello];
    let mut steps = 0;
    while let Some(next) = queue.pop() {
        steps += 1;
        assert!(steps < 100, "the exchange did not settle");
        let bytes = message_to_bytes(&next.msg);
        let replies = if next.addr == "localhost:3000" {
            dispatch(&mut n1, &bytes)
        } else {
            dispatch(&mut n2, &bytes)
        };
        queue.extend(replies);
    }

    assert_eq!(n2.inner.utxo.blockchain.get_best_height(), 5);
    let blocks: Vec<Block> = (0..n2.inner.utxo.blockchain.block_count())
        .map(|i| clone_block(n2.inner.utxo.blockchain.get_block_at(i)))
        .collect();
    let mut fresh = UTXOSet::new(Blockchain::new(blocks).unwrap());
    fresh.reindex();
    assert_eq!(
        n2.inner.utxo.count_transactions().unwrap(),
        fresh.count_transactions().unwrap()
    );
    let from_index = sum_outputs(&n2.inner.utxo.find_UTXO(b"A")).unwrap();
    let from_fresh = sum_outputs(&fresh.find_UTXO(b"A")).unwrap();
    assert_eq!(from_index, from_fresh);
    assert_eq!(
        from_index,
        sum_outputs(&n1.inner.utxo.find_UTXO(b"A")).unwrap()
    );
}

#[test]
fn a_mining_node_assembles_the_pool() {
    let bc = Blockchain::create_blockchain_with_difficulty(String::from("A"), 1).unwrap();
    let mut utxo = UTXOSet::new(bc);
    utxo.reindex();
    let tx = Transaction::new_UTXO(b"A", b"B", 20, &utxo).unwrap();
    let mut miner = Server::new("3000", "M", utxo).unwrap();
    let out = miner
        .handle_tx(Txmsg { addr_from: String::from("localhost:3001"), transaction: tx })
        .unwrap();
    // the pool was mined into a block and advertised to every known peer
    assert_eq!(miner.inner.utxo.blockchain.get_best_height(), 1);
    assert!(miner.inner.mempool.is_empty());
    assert_eq!(out.len(), 1);
    match &out[0].msg {
        Message::Inv(m) => {
            assert_eq!(m.kind, "block");
            assert_eq!(m.items.len(), 1);
        }
        other => panic!("expected an inventory, got {:?}", other),
    }
    assert_eq!(sum_outputs(&miner.inner.utxo.find_UTXO(b"B")).unwrap(), 20);
    assert_eq!(sum_outputs(&miner.inner.utxo.find_UTXO(b"A")).unwrap(), 80);
    assert_eq!(sum_outputs(&miner.inner.utxo.find_UTXO(b"M")).unwrap(), 100);
}

#[test]
fn peers_are_registered_once() {
    let bc = Blockchain::create_blockchain_with_difficulty(String::from("A"), 1).unwrap();
    let utxo = UTXOSet::new(bc);
    let mut s = Server::new("3000", "", utxo).unwrap();
    s.handle_addr(vec![
        String::from("localhost:3001"),
        String::from("localhost:3001"),
        String::from("localhost:3000"),
    ]);
    let known = s.get_known_nodes();
    assert_eq!(
        known,
        vec![
            String::from("localhost:3000"),
            String::from("localhost:3001"),
        ]
    );
}
