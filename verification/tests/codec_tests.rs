//! Round trips of the byte codec and the wire envelope.

use blockchain_rust::block::Block;
use blockchain_rust::codec::Wire;
use blockchain_rust::errors::Error;
use blockchain_rust::server::{bytes_to_cmd, cmd_to_bytes, message_to_bytes, Invmsg, Message};
use blockchain_rust::transaction::Transaction;
use blockchain_rust::tx::{TXInput, TXOutput};

fn sample_tx() -> Transaction {
    Transaction {
        id: String::from("feedbeef"),
        vin: vec![TXInput {
            txid: String::from("aa11"),
            vout: 3,
            signature: vec![1, 2, 3],
            pub_key: vec![9, 8],
        }],
        vout: vec![
            TXOutput { value: -7, pub_key_hash: vec![4, 5] },
            TXOutput { value: 250, pub_key_hash: vec![] },
        ],
    }
}

#[test]
fn transaction_round_trip() {
    let tx = sample_tx();
    let mut bytes = Vec::new();
    tx.encode(&mut bytes);
    let (back, end) = Transaction::decode(bytes.as_slice(), 0).unwrap();
    assert_eq!(end, bytes.len());
    assert_eq!(back.id, tx.id);
    assert_eq!(back.vin.len(), 1);
    assert_eq!(back.vin[0].txid, "aa11");
    assert_eq!(back.vin[0].vout, 3);
    assert_eq!(back.vin[0].signature, vec![1, 2, 3]);
    assert_eq!(back.vin[0].pub_key, vec![9, 8]);
    assert_eq!(back.vout.len(), 2);
    assert_eq!(back.vout[0].value, -7);
    assert_eq!(back.vout[0].pub_key_hash, vec![4, 5]);
    assert_eq!(back.vout[1].value, 250);
    assert!(back.vout[1].pub_key_hash.is_empty());
}

#[test]
fn block_round_trip() {
    let cb = Transaction::new_coinbase(String::from("me"), String::from("memo")).unwrap();
    let block = Block::mine(vec![cb], String::from("prevhash"), 7, 1).unwrap();
    let mut bytes = Vec::new();
    block.encode(&mut bytes);
    let (back, end) = Block::decode(bytes.as_slice(), 0).unwrap();
    assert_eq!(end, bytes.len());
    assert_eq!(back.get_hash(), block.get_hash());
    assert_eq!(back.get_prev_hash(), "prevhash");
    assert_eq!(back.get_height(), 7);
    assert_eq!(back.get_transactions().len(), 1);
    assert_eq!(back.get_transactions()[0].id, block.get_transactions()[0].id);
}

#[test]
fn truncated_block_fails_to_decode() {
    let cb = Transaction::new_coinbase(String::from("me"), String::new()).unwrap();
    let block = Block::mine(vec![cb], String::new(), 0, 1).unwrap();
    let mut bytes = Vec::new();
    block.encode(&mut bytes);
    bytes.truncate(bytes.len() - 1);
    assert!(Block::decode(bytes.as_slice(), 0).is_none());
}

#[test]
fn command_tag_is_padded() {
    let tag = cmd_to_bytes("addr");
    assert_eq!(tag, vec![97, 100, 100, 114, 0, 0, 0, 0, 0, 0, 0, 0]);
}

#[test]
fn message_round_trip() {
    let msg = Message::Inv(Invmsg {
        addr_from: String::from("localhost:3000"),
        kind: String::from("block"),
        items: vec![String::from("h1"), String::from("h2")],
    });
    let bytes = message_to_bytes(&msg);
    match bytes_to_cmd(&bytes).unwrap() {
        Message::Inv(m) => {
            assert_eq!(m.addr_from, "localhost:3000");
            assert_eq!(m.kind, "block");
            assert_eq!(m.items, vec![String::from("h1"), String::from("h2")]);
        }
        other => panic!("wrong variant decoded: {:?}", other),
    }
}

#[test]
fn tx_message_round_trip() {
    let msg = Message::Tx(blockchain_rust::server::Txmsg {
        addr_from: String::from("localhost:3001"),
        transaction: sample_tx(),
    });
    let bytes = message_to_bytes(&msg);
    match bytes_to_cmd(&bytes).unwrap() {
        Message::Tx(m) => {
            assert_eq!(m.addr_from, "localhost:3001");
            assert_eq!(m.transaction.id, "feedbeef");
            assert_eq!(m.transaction.vout[1].value, 250);
        }
        other => panic!("wrong variant decoded: {:?}", other),
    }
}

#[test]
fn unknown_command_is_rejected() {
    let mut bytes = vec![98u8, 111, 103, 117, 115, 0, 0, 0, 0, 0, 0, 0];
    bytes.extend_from_slice(&[1, 2, 3]);
    match bytes_to_cmd(&bytes) {
        Err(Error::UnknownCommand) => {}
        other => panic!("expected unknown command, got {:?}", other),
    }
}

#[test]
fn short_input_is_a_serialization_error() {
    match bytes_to_cmd(&vec![1, 2, 3]) {
        Err(Error::Serialization) => {}
        other => panic!("expected serialization error, got {:?}", other),
    }
}
