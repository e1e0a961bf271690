//! Blocks and the proof-of-work search.

use vstd::prelude::*;

use crate::codec::{
    decode_list, decode_str, decode_u128, decode_u64, encode_list, encode_str, encode_u128,
    encode_u64, enc_list, enc_str, enc_u128, enc_u64, lemma_starts_at_concat,
    lemma_subrange_concat, starts_at, views_of, Wire,
};
use crate::errors::Error;
use crate::hashing::{sha256_hex, sha256_hex_of};
use crate::transaction::{Transaction, TransactionV};

verus! {

/// The number of leading zero hex characters a block hash must show.
pub const TARGET_HEXT: usize = 4;

/// A block: an immutable batch of transactions chained to a predecessor by
/// hash and finalized by a proof-of-work nonce.
#[derive(Debug, Clone)]
pub struct Block {
    timestamp: u128,
    transactions: Vec<Transaction>,
    prev_block_hash: String,
    hash: String,
    height: usize,
    nonce: u64,
}

#[verifier::ext_equal]
pub ghost struct BlockV {
    pub timestamp: u128,
    pub transactions: Seq<TransactionV>,
    pub prev_block_hash: Seq<char>,
    pub hash: Seq<char>,
    pub height: usize,
    pub nonce: u64,
}

impl View for Block {
    type V = BlockV;

    closed spec fn view(&self) -> BlockV {
        BlockV {
            timestamp: self.timestamp,
            transactions: views_of(self.transactions@),
            prev_block_hash: self.prev_block_hash@,
            hash: self.hash@,
            height: self.height,
            nonce: self.nonce,
        }
    }
}

/// The bytes hashed by the proof-of-work search.
pub open spec fn pow_data(
    prev: Seq<char>,
    txs: Seq<TransactionV>,
    timestamp: u128,
    difficulty: usize,
    nonce: u64,
) -> Seq<u8> {
    enc_str(prev) + enc_list::<Transaction>(txs) + enc_u128(timestamp) + enc_u64(
        difficulty as u64,
    ) + enc_u64(nonce)
}

/// The hash a block content earns under a nonce.
pub open spec fn pow_hash(b: BlockV, difficulty: usize) -> Seq<char> {
    sha256_hex_of(pow_data(b.prev_block_hash, b.transactions, b.timestamp, difficulty, b.nonce))
}

/// The first `d` characters are zero hex digits.
pub open spec fn meets_difficulty(h: Seq<char>, d: int) -> bool {
    forall|i: int| 0 <= i < d ==> h[i] == '0'
}

/// No nonce at all meets the target for this content and timestamp.
pub open spec fn pow_exhausted(
    prev: Seq<char>,
    txs: Seq<TransactionV>,
    ts: u128,
    difficulty: usize,
) -> bool {
    forall|n: u64|
        !meets_difficulty(
            sha256_hex_of(#[trigger] pow_data(prev, txs, ts, difficulty, n)),
            difficulty as int,
        )
}

/// A block that the factory mined at the given difficulty: its hash is the
/// digest of its own content and shows the demanded zero prefix.
pub open spec fn mined_v(b: BlockV, difficulty: usize) -> bool {
    b.hash == pow_hash(b, difficulty) && b.hash.len() == 64 && meets_difficulty(
        b.hash,
        difficulty as int,
    )
}

/// Relies on std::time::SystemTime: the milliseconds since the epoch at the
/// moment of the call. Nothing is promised of the value.
#[verifier::external_body]
fn now_millis() -> u128 {
    std::time::SystemTime::now()
        .duration_since(std::time::SystemTime::UNIX_EPOCH)
        .map(|d| d.as_millis())
        .unwrap_or(0)
}

/// The first `d` characters of `s` are `'0'`.
fn leading_zeros(s: &str, d: usize) -> (r: bool)
    requires
        d <= s@.len(),
    ensures
        r == meets_difficulty(s@, d as int),
{
    let mut i: usize = 0;
    while i < d
        invariant
            i <= d <= s@.len(),
            forall|k: int| 0 <= k < i ==> s@[k] == '0',
        decreases d - i,
    {
        if s.get_char(i) != '0' {
            return false;
        }
        i += 1;
    }
    true
}

impl Block {
    /// The transactions the block carries.
    pub fn get_transactions(&self) -> (r: &Vec<Transaction>)
        ensures
            views_of(r@) == self@.transactions,
    {
        &self.transactions
    }

    /// The block's own hash.
    pub fn get_hash(&self) -> (r: String)
        ensures
            r@ == self@.hash,
    {
        self.hash.clone()
    }

    /// The predecessor's hash; empty on the genesis block.
    pub fn get_prev_hash(&self) -> (r: String)
        ensures
            r@ == self@.prev_block_hash,
    {
        self.prev_block_hash.clone()
    }

    /// The block's height in the chain.
    pub fn get_height(&self) -> (r: usize)
        ensures
            r == self@.height,
    {
        self.height
    }

    /// Mine a block over the given transactions and predecessor hash: search
    /// nonces from zero upward until the content's digest shows `difficulty`
    /// leading zero hex characters; the stored nonce is the least that does.
    /// Fails only if the whole nonce space is exhausted at the drawn
    /// timestamp.
    pub fn mine(
        data: Vec<Transaction>,
        prev_block_hash: String,
        height: usize,
        difficulty: usize,
    ) -> (r: Result<Block, Error>)
        requires
            difficulty <= 64,
        ensures
            r matches Ok(b) ==> b@.transactions == views_of(data@) && b@.prev_block_hash
                == prev_block_hash@ && b@.height == height && mined_v(b@, difficulty) && (
            forall|n: u64|
                n < b@.nonce ==> !meets_difficulty(
                    sha256_hex_of(
                        pow_data(prev_block_hash@, views_of(data@), b@.timestamp, difficulty, n),
                    ),
                    difficulty as int,
                )),
            r is Err ==> r == Err::<Block, Error>(Error::Validation) && (exists|ts: u128|
                pow_exhausted(prev_block_hash@, views_of(data@), ts, difficulty)),
    {
        let timestamp = now_millis();
        let mut nonce: u64 = 0;
        loop
            invariant
                difficulty <= 64,
                forall|n: u64|
                    n < nonce ==> !meets_difficulty(
                        sha256_hex_of(
                            pow_data(prev_block_hash@, views_of(data@), timestamp, difficulty, n),
                        ),
                        difficulty as int,
                    ),
            decreases u64::MAX - nonce,
        {
            let mut content: Vec<u8> = Vec::new();
            encode_str(&mut content, prev_block_hash.as_str());
            encode_list::<Transaction>(&mut content, &data);
            encode_u128(&mut content, timestamp);
            encode_u64(&mut content, difficulty as u64);
            encode_u64(&mut content, nonce);
            proof {
                assert(content@ =~= pow_data(
                    prev_block_hash@,
                    views_of(data@),
                    timestamp,
                    difficulty,
                    nonce,
                ));
            }
            let digest = sha256_hex(content.as_slice());
            if leading_zeros(digest.as_str(), difficulty) {
                let b = Block {
                    timestamp,
                    transactions: data,
                    prev_block_hash,
                    hash: digest,
                    height,
                    nonce,
                };
                return Ok(b);
            }
            if nonce == u64::MAX {
                proof {
                    let ts = timestamp;
                    assert forall|n: u64|
                        !meets_difficulty(
                            sha256_hex_of(
                                #[trigger] pow_data(prev_block_hash@, views_of(data@), ts, difficulty, n),
                            ),
                            difficulty as int,
                        ) by {
                        if n < u64::MAX {
                        } else {
                            assert(n == nonce);
                        }
                    }
                    assert(pow_exhausted(prev_block_hash@, views_of(data@), ts, difficulty));
                }
                return Err(Error::Validation);
            }
            nonce = nonce + 1;
        }
    }

    /// Mine a block at the configured difficulty.
    pub fn new_block(data: Vec<Transaction>, prev_block_hash: String, height: usize) -> (r: Result<
        Block,
        Error,
    >)
        ensures
            r matches Ok(b) ==> b@.transactions == views_of(data@) && b@.prev_block_hash
                == prev_block_hash@ && b@.height == height && mined_v(b@, TARGET_HEXT) && (
            forall|n: u64|
                n < b@.nonce ==> !meets_difficulty(
                    sha256_hex_of(
                        pow_data(prev_block_hash@, views_of(data@), b@.timestamp, TARGET_HEXT, n),
                    ),
                    TARGET_HEXT as int,
                )),
            r is Err ==> r == Err::<Block, Error>(Error::Validation),
    {
        Block::mine(data, prev_block_hash, height, TARGET_HEXT)
    }

    /// Mine the genesis block: empty predecessor hash, height zero, one
    /// coinbase transaction.
    pub fn new_genesis_block(coinbase: Transaction) -> (r: Result<Block, Error>)
        ensures
            r matches Ok(b) ==> b@.transactions.len() == 1 && b@.transactions[0] == coinbase@
                && b@.prev_block_hash.len() == 0 && b@.height == 0 && mined_v(b@, TARGET_HEXT) && (
            forall|n: u64|
                n < b@.nonce ==> !meets_difficulty(
                    sha256_hex_of(
                        pow_data(
                            b@.prev_block_hash,
                            b@.transactions,
                            b@.timestamp,
                            TARGET_HEXT,
                            n,
                        ),
                    ),
                    TARGET_HEXT as int,
                )),
            r is Err ==> r == Err::<Block, Error>(Error::Validation),
    {
        let mut data: Vec<Transaction> = Vec::new();
        data.push(coinbase);
        proof {
            assert(views_of(data@).len() == 1);
        }
        Block::new_block(data, String::new(), 0)
    }
}

/// Copy a block.
pub fn clone_block(b: &Block) -> (r: Block)
    ensures
        r@ == b@,
{
    let r = Block {
        timestamp: b.timestamp,
        transactions: crate::transaction::clone_txs(&b.transactions),
        prev_block_hash: b.prev_block_hash.clone(),
        hash: b.hash.clone(),
        height: b.height,
        nonce: b.nonce,
    };
    proof {
        assert(r@ =~= b@);
    }
    r
}

impl Wire for Block {
    open spec fn enc_v(v: BlockV) -> Seq<u8> {
        enc_u128(v.timestamp) + enc_list::<Transaction>(v.transactions) + enc_str(
            v.prev_block_hash,
        ) + enc_str(v.hash) + enc_u64(v.height as u64) + enc_u64(v.nonce)
    }

    proof fn enc_v_min_len(v: BlockV) {
    }

    fn encode(&self, out: &mut Vec<u8>) {
        encode_u128(out, self.timestamp);
        encode_list::<Transaction>(out, &self.transactions);
        encode_str(out, self.prev_block_hash.as_str());
        encode_str(out, self.hash.as_str());
        encode_u64(out, self.height as u64);
        encode_u64(out, self.nonce);
        assert(out@ =~= old(out)@ + Self::enc_v(self@));
    }

    fn decode(data: &[u8], pos: usize) -> (r: Option<(Self, usize)>) {
        proof {
            assert forall|v: BlockV| #[trigger]
                starts_at(data@, pos as int, Self::enc_v(v)) implies {
                let a1 = enc_u128(v.timestamp);
                let a2 = enc_list::<Transaction>(v.transactions);
                let a3 = enc_str(v.prev_block_hash);
                let a4 = enc_str(v.hash);
                let a5 = enc_u64(v.height as u64);
                let a6 = enc_u64(v.nonce);
                &&& starts_at(data@, pos as int, a1)
                &&& starts_at(data@, pos + a1.len(), a2)
                &&& starts_at(data@, pos + a1.len() + a2.len(), a3)
                &&& starts_at(data@, pos + a1.len() + a2.len() + a3.len(), a4)
                &&& starts_at(data@, pos + a1.len() + a2.len() + a3.len() + a4.len(), a5)
                &&& starts_at(
                    data@,
                    pos + a1.len() + a2.len() + a3.len() + a4.len() + a5.len(),
                    a6,
                )
            } by {
                let a1 = enc_u128(v.timestamp);
                let a2 = enc_list::<Transaction>(v.transactions);
                let a3 = enc_str(v.prev_block_hash);
                let a4 = enc_str(v.hash);
                let a5 = enc_u64(v.height as u64);
                let a6 = enc_u64(v.nonce);
                lemma_starts_at_concat(data@, pos as int, a1 + a2 + a3 + a4 + a5, a6);
                lemma_starts_at_concat(data@, pos as int, a1 + a2 + a3 + a4, a5);
                lemma_starts_at_concat(data@, pos as int, a1 + a2 + a3, a4);
                lemma_starts_at_concat(data@, pos as int, a1 + a2, a3);
                lemma_starts_at_concat(data@, pos as int, a1, a2);
            }
        }
        let (timestamp, p1) = match decode_u128(data, pos) {
            None => {
                return None;
            },
            Some(x) => x,
        };
        let (transactions, p2) = match decode_list::<Transaction>(data, p1) {
            None => {
                return None;
            },
            Some(x) => x,
        };
        let (prev_block_hash, p3) = match decode_str(data, p2) {
            None => {
                return None;
            },
            Some(x) => x,
        };
        let (hash, p4) = match decode_str(data, p3) {
            None => {
                return None;
            },
            Some(x) => x,
        };
        let (height_w, p5) = match decode_u64(data, p4) {
            None => {
                return None;
            },
            Some(x) => x,
        };
        let height = height_w as usize;
        if (height as u64) != height_w {
            proof {
                assert forall|v: BlockV| !(#[trigger] starts_at(
                    data@,
                    pos as int,
                    Self::enc_v(v),
                )) by {
                    if starts_at(data@, pos as int, Self::enc_v(v)) {
                        assert(v.height as u64 == height_w);
                    }
                }
            }
            return None;
        }
        let (nonce, p6) = match decode_u64(data, p5) {
            None => {
                return None;
            },
            Some(x) => x,
        };
        let x = Block { timestamp, transactions, prev_block_hash, hash, height, nonce };
        proof {
            lemma_subrange_concat(data@, pos as int, p1 as int, p2 as int);
            lemma_subrange_concat(data@, pos as int, p2 as int, p3 as int);
            lemma_subrange_concat(data@, pos as int, p3 as int, p4 as int);
            lemma_subrange_concat(data@, pos as int, p4 as int, p5 as int);
            lemma_subrange_concat(data@, pos as int, p5 as int, p6 as int);
            assert(data@.subrange(pos as int, p6 as int) == Self::enc_v(x@));
            assert forall|v: BlockV| #[trigger]
                starts_at(data@, pos as int, Self::enc_v(v)) implies x@ =~= v && p6 as int == pos
                + Self::enc_v(v).len() by {
                assert(v.height as u64 == height_w);
                assert(v.height == x@.height);
            }
        }
        Some((x, p6))
    }
}

} // verus!
