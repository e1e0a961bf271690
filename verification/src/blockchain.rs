//! The ledger: an append-only chain of blocks held in append order, keyed by
//! hash through linear lookup, with backward traversal from the tip.

use vstd::prelude::*;

use crate::block::{clone_block, Block, BlockV, TARGET_HEXT};
use crate::codec::views_of;
use crate::errors::Error;
use crate::transaction::{clone_tx, is_coinbase_v, sign_inputs_ok, Transaction, TransactionV};
use crate::tx::TXInputV;

verus! {

/// The memo carried by the genesis coinbase.
pub const GENESIS_COINBASE_DATA: &'static str =
    "The Times 03/Jan/2009 Chancellor on brink of second bailout for banks";

/// A well-formed chain: nonempty, rooted in a genesis block with an empty
/// predecessor hash, linked by hashes, with positions as heights and
/// pairwise distinct nonempty hashes.
pub open spec fn chain_wf(c: Seq<BlockV>) -> bool {
    &&& c.len() >= 1
    &&& c[0].prev_block_hash.len() == 0
    &&& forall|i: int| 0 < i < c.len() ==> #[trigger] c[i].prev_block_hash == c[i - 1].hash
    &&& forall|i: int| 0 <= i < c.len() ==> (#[trigger] c[i].hash).len() > 0
    &&& forall|i: int, j: int| 0 <= i < j < c.len() ==> c[i].hash != c[j].hash
    &&& forall|i: int| 0 <= i < c.len() ==> (#[trigger] c[i].height) as int == i
}

/// The first block carrying the given hash.
pub open spec fn chain_find_block(c: Seq<BlockV>, h: Seq<char>) -> Option<BlockV>
    decreases c.len(),
{
    if c.len() == 0 {
        None
    } else if c[0].hash == h {
        Some(c[0])
    } else {
        chain_find_block(c.skip(1), h)
    }
}

/// The transaction the ledger finds for an id: blocks are searched newest to
/// oldest, transactions within a block front to back.
pub open spec fn chain_find_tx(c: Seq<BlockV>, id: Seq<char>) -> Option<TransactionV>
    decreases c.len(),
{
    if c.len() == 0 {
        None
    } else {
        match find_tx_in_block(c.last().transactions, id) {
            Some(t) => Some(t),
            None => chain_find_tx(c.drop_last(), id),
        }
    }
}

/// The first transaction with the given id in a block's list.
pub open spec fn find_tx_in_block(txs: Seq<TransactionV>, id: Seq<char>) -> Option<TransactionV>
    decreases txs.len(),
{
    if txs.len() == 0 {
        None
    } else if txs[0].id == id {
        Some(txs[0])
    } else {
        find_tx_in_block(txs.skip(1), id)
    }
}

/// The previous transactions a transaction's inputs reference, read off the
/// chain input by input.
pub open spec fn chain_prevs(c: Seq<BlockV>, vins: Seq<TXInputV>) -> Seq<TransactionV> {
    Seq::new(vins.len(), |i: int| chain_find_tx(c, vins[i].txid).unwrap())
}

/// The ledger. Blocks stand in append order, genesis first; the tip pointer
/// carries the last block's hash.
#[derive(Debug)]
pub struct Blockchain {
    current_hash: String,
    difficulty: usize,
    blocks: Vec<Block>,
}

/// An iterator walking the chain backward from the tip, one block per step.
pub struct BlockchainIter<'a> {
    current_hash: String,
    bc: &'a Blockchain,
    pos: Ghost<int>,
}

impl View for Blockchain {
    type V = Seq<BlockV>;

    closed spec fn view(&self) -> Seq<BlockV> {
        views_of(self.blocks@)
    }
}

impl Blockchain {
    /// The structural invariant: a well-formed chain whose tip pointer names
    /// the last block, mined at a difficulty the factory accepts.
    pub open spec fn wf(&self) -> bool {
        chain_wf(self@) && self.tip_spec() == self@.last().hash && self.difficulty_spec() <= 64
    }

    pub closed spec fn tip_spec(&self) -> Seq<char> {
        self.current_hash@
    }

    pub closed spec fn difficulty_spec(&self) -> usize {
        self.difficulty
    }

    /// Open a ledger over blocks loaded from the store, in append order.
    /// Rejected with `NotFound` when empty, `Validation` when the chain is
    /// not well formed.
    pub fn new(blocks: Vec<Block>) -> (r: Result<Blockchain, Error>)
        ensures
            r matches Ok(c) ==> c.wf() && c@ == views_of(blocks@) && c.difficulty_spec()
                == TARGET_HEXT,
            r is Err ==> !chain_wf(views_of(blocks@)),
            blocks@.len() == 0 ==> r == Err::<Blockchain, Error>(Error::NotFound),
            blocks@.len() > 0 && r is Err ==> r == Err::<Blockchain, Error>(Error::Validation),
    {
        let n = blocks.len();
        if n == 0 {
            return Err(Error::NotFound);
        }
        let ghost c = views_of(blocks@);
        if !blocks[0].get_prev_hash().as_str().is_empty() {
            proof {
                assert(c[0] == blocks@[0]@);
            }
            return Err(Error::Validation);
        }
        let mut i: usize = 0;
        while i < n
            invariant
                i <= n,
                n == blocks@.len(),
                c == views_of(blocks@),
                forall|k: int| 0 <= k < i ==> (#[trigger] c[k].hash).len() > 0,
                forall|k: int| 0 <= k < i ==> (#[trigger] c[k].height) as int == k,
                forall|k: int| 0 < k < i ==> #[trigger] c[k].prev_block_hash == c[k - 1].hash,
                forall|k: int, j: int| 0 <= k < j < i ==> c[k].hash != c[j].hash,
            decreases n - i,
        {
            proof {
                assert(c[i as int] == blocks@[i as int]@);
            }
            if blocks[i].get_hash().as_str().is_empty() {
                return Err(Error::Validation);
            }
            if blocks[i].get_height() != i {
                return Err(Error::Validation);
            }
            if i > 0 {
                if !(blocks[i].get_prev_hash() == blocks[i - 1].get_hash()) {
                    proof {
                        assert(c[i - 1] == blocks@[i - 1]@);
                    }
                    return Err(Error::Validation);
                }
            }
            let mut j: usize = 0;
            while j < i
                invariant
                    j <= i < n,
                    n == blocks@.len(),
                    c == views_of(blocks@),
                    forall|k: int| 0 <= k < j ==> c[k].hash != c[i as int].hash,
                decreases i - j,
            {
                if blocks[j].get_hash() == blocks[i].get_hash() {
                    proof {
                        assert(c[j as int] == blocks@[j as int]@);
                        assert(c[i as int] == blocks@[i as int]@);
                        assert(c[j as int].hash == c[i as int].hash);
                    }
                    return Err(Error::Validation);
                }
                j += 1;
            }
            i += 1;
        }
        let tip = blocks[n - 1].get_hash();
        let r = Blockchain { current_hash: tip, difficulty: TARGET_HEXT, blocks };
        proof {
            assert(r.wf());
        }
        Ok(r)
    }

    /// Build a fresh ledger at the given difficulty: mine the genesis block
    /// over a coinbase paying `address`.
    pub fn create_blockchain_with_difficulty(address: String, difficulty: usize) -> (r: Result<
        Blockchain,
        Error,
    >)
        requires
            difficulty <= 64,
        ensures
            r matches Ok(c) ==> {
                &&& c.wf()
                &&& c@.len() == 1
                &&& c.difficulty_spec() == difficulty
                &&& crate::block::mined_v(c@[0], difficulty)
                &&& c@[0].transactions.len() == 1
                &&& crate::transaction::is_coinbase_v(c@[0].transactions[0])
                &&& c@[0].transactions[0].vout.len() == 1
                &&& c@[0].transactions[0].vout[0].value == crate::transaction::SUBSIDY
                &&& c@[0].transactions[0].vout[0].pub_key_hash == vstd::utf8::encode_utf8(
                    address@,
                )
                &&& c@[0].transactions[0].vin[0].pub_key == vstd::utf8::encode_utf8(
                    crate::transaction::coinbase_memo(address@, GENESIS_COINBASE_DATA@),
                )
            },
    {
        let cbtx = match Transaction::new_coinbase(
            address,
            String::from_str(GENESIS_COINBASE_DATA),
        ) {
            Ok(t) => t,
            Err(e) => {
                return Err(e);
            },
        };
        let mut data: Vec<Transaction> = Vec::new();
        data.push(cbtx);
        let genesis = match Block::mine(data, String::new(), 0, difficulty) {
            Ok(b) => b,
            Err(e) => {
                return Err(e);
            },
        };
        let tip = genesis.get_hash();
        let mut blocks: Vec<Block> = Vec::new();
        blocks.push(genesis);
        let r = Blockchain { current_hash: tip, difficulty, blocks };
        proof {
            assert(r@.len() == 1);
            assert(r@[0] == r@.last());
            assert(r.wf());
        }
        Ok(r)
    }

    /// Build a fresh ledger at the configured difficulty.
    pub fn create_blockchain(address: String) -> (r: Result<Blockchain, Error>)
        ensures
            r matches Ok(c) ==> {
                &&& c.wf()
                &&& c@.len() == 1
                &&& crate::block::mined_v(c@[0], TARGET_HEXT)
                &&& c@[0].transactions.len() == 1
                &&& crate::transaction::is_coinbase_v(c@[0].transactions[0])
                &&& c@[0].transactions[0].vout.len() == 1
                &&& c@[0].transactions[0].vout[0].value == crate::transaction::SUBSIDY
                &&& c@[0].transactions[0].vout[0].pub_key_hash == vstd::utf8::encode_utf8(
                    address@,
                )
                &&& c@[0].transactions[0].vin[0].pub_key == vstd::utf8::encode_utf8(
                    crate::transaction::coinbase_memo(address@, GENESIS_COINBASE_DATA@),
                )
            },
    {
        Blockchain::create_blockchain_with_difficulty(address, TARGET_HEXT)
    }

    /// The height of the tip block.
    pub fn get_best_height(&self) -> (r: usize)
        requires
            self.wf(),
        ensures
            r as int == self@.len() - 1,
    {
        let n = self.blocks.len();
        let h = self.blocks[n - 1].get_height();
        proof {
            assert(self@[n - 1] == self@.last());
        }
        h
    }

    /// Mine a block over the given transactions at the tip and append it.
    /// Fails, leaving the ledger unchanged, when the nonce search is
    /// exhausted, the chain is full, or the fresh hash collides.
    pub fn add_block(&mut self, transactions: Vec<Transaction>) -> (r: Result<Block, Error>)
        requires
            old(self).wf(),
        ensures
            final(self).wf(),
            final(self).difficulty_spec() == old(self).difficulty_spec(),
            r matches Ok(b) ==> {
                &&& final(self)@ == old(self)@.push(b@)
                &&& b@.prev_block_hash == old(self)@.last().hash
                &&& b@.height as int == old(self)@.len()
                &&& b@.transactions == views_of(transactions@)
                &&& crate::block::mined_v(b@, old(self).difficulty_spec())
            },
            r is Err ==> *final(self) == *old(self),
            r is Err ==> r == Err::<Block, Error>(Error::Overflow) || r == Err::<Block, Error>(
                Error::Validation,
            ),
            r == Err::<Block, Error>(Error::Overflow) <==> old(self)@.len() == usize::MAX,
            r == Err::<Block, Error>(Error::Validation) ==> (exists|ts: u128|
                crate::block::pow_exhausted(
                    old(self)@.last().hash,
                    views_of(transactions@),
                    ts,
                    old(self).difficulty_spec(),
                )) || (exists|b: BlockV|
                {
                    &&& crate::block::mined_v(b, old(self).difficulty_spec())
                    &&& b.prev_block_hash == old(self)@.last().hash
                    &&& b.height as int == old(self)@.len()
                    &&& b.transactions == views_of(transactions@)
                    &&& exists|i: int|
                        0 <= i < old(self)@.len() && (#[trigger] old(self)@[i]).hash == b.hash
                }),
    {
        let n = self.blocks.len();
        if n == usize::MAX {
            return Err(Error::Overflow);
        }
        let lasthash = self.blocks[n - 1].get_hash();
        proof {
            assert(self@[n - 1] == self@.last());
        }
        let block = match Block::mine(transactions, lasthash, n, self.difficulty) {
            Ok(b) => b,
            Err(e) => {
                return Err(e);
            },
        };
        // a fresh hash that collides with a stored one would corrupt lookup
        let ghost bw = block@;
        let mut j: usize = 0;
        while j < n
            invariant
                j <= n,
                n == self@.len(),
                n < usize::MAX,
                forall|k: int| 0 <= k < j ==> self@[k].hash != block@.hash,
                *self == *old(self),
                old(self).wf(),
                bw == block@,
                crate::block::mined_v(bw, old(self).difficulty_spec()),
                bw.prev_block_hash == old(self)@.last().hash,
                bw.height as int == old(self)@.len(),
                bw.transactions == views_of(transactions@),
                block@.hash.len() > 0,
            decreases n - j,
        {
            if self.blocks[j].get_hash() == block.get_hash() {
                proof {
                    assert(old(self)@[j as int].hash == bw.hash);
                }
                return Err(Error::Validation);
            }
            j += 1;
        }
        let out = clone_block(&block);
        let ghost bv = block@;
        let tip = block.get_hash();
        let ghost pre = views_of(self.blocks@);
        let ghost prelen = self.blocks@.len();
        self.blocks.push(block);
        self.current_hash = tip;
        proof {
            assert(views_of(self.blocks@).len() == prelen + 1);
            assert forall|k: int| 0 <= k < prelen + 1 implies #[trigger] views_of(self.blocks@)[k]
                == pre.push(bv)[k] by {
                if k < prelen {
                    assert(views_of(self.blocks@)[k] == self.blocks@[k]@);
                    assert(pre[k] == old(self).blocks@[k]@);
                }
            }
            assert(views_of(self.blocks@) =~= pre.push(bv));
            assert(self@ == old(self)@.push(bv));
            assert(self@.last() == bv);
            assert(self@.len() == prelen + 1);
            assert forall|i: int| 0 < i < self@.len() implies #[trigger] self@[i].prev_block_hash
                == self@[i - 1].hash by {
                if i < prelen {
                    assert(self@[i] == old(self)@[i]);
                    assert(self@[i - 1] == old(self)@[i - 1]);
                } else {
                    assert(self@[i] == bv);
                    assert(self@[i - 1] == old(self)@[prelen - 1]);
                    assert(old(self)@[prelen - 1] == old(self)@.last());
                }
            }
            assert forall|i: int, j: int| 0 <= i < j < self@.len() implies self@[i].hash
                != self@[j].hash by {
                if j < prelen {
                    assert(self@[i] == old(self)@[i]);
                    assert(self@[j] == old(self)@[j]);
                } else {
                    assert(self@[i] == old(self)@[i]);
                    assert(self@[j] == bv);
                }
            }
            assert(self.wf());
        }
        Ok(out)
    }
}

/// Every input's referenced transaction is on the chain.
pub open spec fn chain_has_prevs(c: Seq<BlockV>, vins: Seq<TXInputV>) -> bool {
    forall|i: int| 0 <= i < vins.len() ==> chain_find_tx(c, (#[trigger] vins[i]).txid) is Some
}

/// The order in which `Iterate` yields blocks: tip first, genesis last.
pub open spec fn iterated(c: Seq<BlockV>) -> Seq<BlockV> {
    Seq::new(c.len(), |i: int| c[c.len() - 1 - i])
}

/// Walking the chain backward from the tip yields blocks linked by hash:
/// each yielded block names the next yielded block as its predecessor, and
/// the walk ends at the genesis block, whose predecessor hash is empty.
pub proof fn lemma_iterate_links(c: Seq<BlockV>)
    requires
        chain_wf(c),
    ensures
        iterated(c).len() == c.len(),
        forall|i: int|
            0 <= i < c.len() - 1 ==> (#[trigger] iterated(c)[i]).prev_block_hash == iterated(
                c,
            )[i + 1].hash,
        iterated(c)[c.len() - 1].prev_block_hash.len() == 0,
{
    assert forall|i: int|
        0 <= i < c.len() - 1 implies (#[trigger] iterated(c)[i]).prev_block_hash == iterated(
        c,
    )[i + 1].hash by {
        assert(iterated(c)[i] == c[c.len() - 1 - i]);
        assert(iterated(c)[i + 1] == c[c.len() - 2 - i]);
    }
    assert(iterated(c)[c.len() - 1] == c[0]);
}

/// Search a block's transactions front to back, returning a copy.
fn find_in_txs(txs: &Vec<Transaction>, id: &String) -> (r: Option<Transaction>)
    ensures
        match r {
            Some(t) => find_tx_in_block(views_of(txs@), id@) == Some(t@),
            None => find_tx_in_block(views_of(txs@), id@) is None,
        },
{
    let n = txs.len();
    let mut i: usize = 0;
    proof {
        assert(views_of(txs@).skip(0) =~= views_of(txs@));
    }
    while i < n
        invariant
            i <= n,
            n == txs@.len(),
            find_tx_in_block(views_of(txs@), id@) == find_tx_in_block(
                views_of(txs@).skip(i as int),
                id@,
            ),
        decreases n - i,
    {
        let ghost s = views_of(txs@);
        if txs[i].id == *id {
            proof {
                assert(s.skip(i as int)[0] == s[i as int]);
            }
            return Some(clone_tx(&txs[i]));
        }
        proof {
            assert(s.skip(i as int)[0] == s[i as int]);
            assert(s.skip(i as int).skip(1) =~= s.skip(i + 1));
        }
        i += 1;
    }
    proof {
        assert(views_of(txs@).skip(n as int) =~= Seq::<TransactionV>::empty());
    }
    None
}

impl Blockchain {
    /// Append a block received from a peer. It must extend the tip, carry
    /// the next height and a fresh nonempty hash; nothing else is checked.
    pub fn append_block(&mut self, block: Block) -> (r: Result<(), Error>)
        requires
            old(self).wf(),
        ensures
            final(self).wf(),
            final(self).difficulty_spec() == old(self).difficulty_spec(),
            r is Ok ==> final(self)@ == old(self)@.push(block@) && block@.prev_block_hash == old(
                self,
            )@.last().hash,
            r is Err ==> *final(self) == *old(self) && r == Err::<(), Error>(Error::Validation),
            r is Ok <==> old(self)@.len() < usize::MAX && block@.prev_block_hash == old(
                self,
            )@.last().hash && block@.hash.len() > 0 && block@.height as int == old(self)@.len()
                && (forall|i: int|
                0 <= i < old(self)@.len() ==> (#[trigger] old(self)@[i]).hash != block@.hash),
    {
        let n = self.blocks.len();
        if n == usize::MAX {
            return Err(Error::Validation);
        }
        proof {
            assert(self@[n - 1] == self@.last());
        }
        if !(block.get_prev_hash() == self.blocks[n - 1].get_hash()) {
            return Err(Error::Validation);
        }
        if block.get_hash().as_str().is_empty() {
            return Err(Error::Validation);
        }
        if block.get_height() != n {
            return Err(Error::Validation);
        }
        let mut j: usize = 0;
        while j < n
            invariant
                j <= n,
                n == self@.len(),
                n < usize::MAX,
                forall|k: int| 0 <= k < j ==> self@[k].hash != block@.hash,
                *self == *old(self),
                old(self).wf(),
                block@.hash.len() > 0,
            decreases n - j,
        {
            if self.blocks[j].get_hash() == block.get_hash() {
                proof {
                    assert(old(self)@[j as int].hash == block@.hash);
                }
                return Err(Error::Validation);
            }
            j += 1;
        }
        let tip = block.get_hash();
        let ghost bv = block@;
        let ghost pre = views_of(self.blocks@);
        let ghost prelen = self.blocks@.len();
        self.blocks.push(block);
        self.current_hash = tip;
        proof {
            assert forall|k: int| 0 <= k < prelen + 1 implies #[trigger] views_of(self.blocks@)[k]
                == pre.push(bv)[k] by {
                if k < prelen {
                    assert(views_of(self.blocks@)[k] == self.blocks@[k]@);
                    assert(pre[k] == old(self).blocks@[k]@);
                }
            }
            assert(views_of(self.blocks@) =~= pre.push(bv));
            assert(self@ == old(self)@.push(bv));
            assert forall|i: int| 0 < i < self@.len() implies #[trigger] self@[i].prev_block_hash
                == self@[i - 1].hash by {
                if i < prelen {
                    assert(self@[i] == old(self)@[i]);
                    assert(self@[i - 1] == old(self)@[i - 1]);
                } else {
                    assert(self@[i] == bv);
                    assert(self@[i - 1] == old(self)@[prelen - 1]);
                    assert(old(self)@[prelen - 1] == old(self)@.last());
                }
            }
            assert forall|i: int, j2: int| 0 <= i < j2 < self@.len() implies self@[i].hash
                != self@[j2].hash by {
                if j2 < prelen {
                    assert(self@[i] == old(self)@[i]);
                    assert(self@[j2] == old(self)@[j2]);
                } else {
                    assert(self@[i] == old(self)@[i]);
                    assert(self@[j2] == bv);
                }
            }
            assert(self.wf());
        }
        Ok(())
    }

    /// The number of blocks on the chain.
    pub fn block_count(&self) -> (r: usize)
        ensures
            r == self@.len(),
    {
        self.blocks.len()
    }

    /// The block at a position, genesis first.
    pub fn get_block_at(&self, i: usize) -> (r: &Block)
        requires
            i < self@.len(),
        ensures
            r@ == self@[i as int],
    {
        proof {
            assert(self@[i as int] == self.blocks@[i as int]@);
        }
        &self.blocks[i]
    }

    /// The block stored under a hash, if any, as a copy.
    pub fn get_block(&self, hash: &String) -> (r: Option<Block>)
        ensures
            match r {
                Some(b) => chain_find_block(self@, hash@) == Some(b@),
                None => chain_find_block(self@, hash@) is None,
            },
    {
        let n = self.blocks.len();
        let mut i: usize = 0;
        proof {
            assert(self@.skip(0) =~= self@);
        }
        while i < n
            invariant
                i <= n,
                n == self@.len(),
                chain_find_block(self@, hash@) == chain_find_block(self@.skip(i as int), hash@),
            decreases n - i,
        {
            let ghost s = self@;
            if self.blocks[i].get_hash() == *hash {
                proof {
                    assert(s.skip(i as int)[0] == s[i as int]);
                }
                return Some(clone_block(&self.blocks[i]));
            }
            proof {
                assert(s.skip(i as int)[0] == s[i as int]);
                assert(s.skip(i as int).skip(1) =~= s.skip(i + 1));
            }
            i += 1;
        }
        proof {
            assert(self@.skip(n as int) =~= Seq::<BlockV>::empty());
        }
        None
    }

    /// All block hashes, tip to genesis.
    pub fn get_block_hashes(&self) -> (r: Vec<String>)
        ensures
            r@.len() == self@.len(),
            forall|i: int| 0 <= i < r@.len() ==> (#[trigger] r@[i])@ == iterated(self@)[i].hash,
    {
        let n = self.blocks.len();
        let mut out: Vec<String> = Vec::new();
        let mut i: usize = 0;
        while i < n
            invariant
                i <= n,
                n == self@.len(),
                out@.len() == i,
                forall|k: int| 0 <= k < i ==> (#[trigger] out@[k])@ == iterated(self@)[k].hash,
            decreases n - i,
        {
            let h = self.blocks[n - 1 - i].get_hash();
            proof {
                assert(iterated(self@)[i as int] == self@[n - 1 - i]);
            }
            out.push(h);
            i += 1;
        }
        out
    }

    /// A fresh backward traversal from the current tip.
    pub fn iter<'a>(&'a self) -> (r: BlockchainIter<'a>)
        requires
            self.wf(),
        ensures
            r.wf(),
            r.chain_spec() == self@,
            r.pos_spec() == self@.len() - 1,
    {
        proof {
            assert(self@[self@.len() - 1] == self@.last());
        }
        BlockchainIter {
            current_hash: self.blocks[self.blocks.len() - 1].get_hash(),
            bc: self,
            pos: Ghost(self@.len() - 1),
        }
    }

    /// Find a transaction by id: blocks are scanned from the tip backward.
    pub fn find_transaction(&self, id: &String) -> (r: Result<Transaction, Error>)
        ensures
            match r {
                Ok(t) => chain_find_tx(self@, id@) == Some(t@),
                Err(e) => e == Error::NotFound && chain_find_tx(self@, id@) is None,
            },
    {
        let n = self.blocks.len();
        let mut k: usize = n;
        proof {
            assert(self@.take(n as int) =~= self@);
        }
        while k > 0
        invariant
            k <= n,
            n == self@.len(),
            chain_find_tx(self@, id@) == chain_find_tx(self@.take(k as int), id@),
        decreases k,
        {
            let ghost c = self@;
            let txs = self.blocks[k - 1].get_transactions();
            proof {
                assert(c.take(k as int).last() == c[k - 1]);
                assert(c.take(k as int).drop_last() =~= c.take(k - 1));
                assert(self@[k - 1] == self.blocks@[k - 1]@);
                assert(views_of(txs@) == c[k - 1].transactions);
            }
            match find_in_txs(txs, id) {
                Some(t) => {
                    return Ok(t);
                },
                None => {},
            }
            k -= 1;
        }
        proof {
            assert(self@.take(0) =~= Seq::<BlockV>::empty());
        }
        Err(Error::NotFound)
    }

    /// Collect the previous transaction of every input of `tx`, in input
    /// order. Fails with `NotFound` exactly when some input references an
    /// unknown transaction.
    pub fn get_prev_txs(&self, tx: &Transaction) -> (r: Result<Vec<Transaction>, Error>)
        ensures
            match r {
                Ok(v) => chain_has_prevs(self@, tx@.vin) && views_of(v@) == chain_prevs(
                    self@,
                    tx@.vin,
                ),
                Err(e) => e == Error::NotFound && !chain_has_prevs(self@, tx@.vin),
            },
    {
        let n = tx.vin.len();
        let mut out: Vec<Transaction> = Vec::new();
        let mut i: usize = 0;
        while i < n
            invariant
                i <= n,
                n == tx@.vin.len(),
                out@.len() == i,
                forall|k: int|
                    0 <= k < i ==> chain_find_tx(self@, (#[trigger] tx@.vin[k]).txid) is Some,
                forall|k: int|
                    0 <= k < i ==> #[trigger] views_of(out@)[k] == chain_find_tx(
                        self@,
                        tx@.vin[k].txid,
                    ).unwrap(),
            decreases n - i,
        {
            proof {
                assert(tx@.vin[i as int] == tx.vin@[i as int]@);
            }
            let t = match self.find_transaction(&tx.vin[i].txid) {
                Ok(t) => t,
                Err(_) => {
                    return Err(Error::NotFound);
                },
            };
            let ghost pre = out@;
            out.push(t);
            proof {
                assert(views_of(pre).len() == pre.len());
                assert(out@ == pre.push(t));
                assert(views_of(out@)[i as int] == t@);
                assert(chain_find_tx(self@, tx@.vin[i as int].txid) == Some(t@));
                assert forall|k: int| 0 <= k < i + 1 implies #[trigger] views_of(out@)[k]
                    == chain_find_tx(self@, tx@.vin[k].txid).unwrap() by {
                    if k < i {
                        assert(out@[k] == pre[k]);
                        assert(views_of(out@)[k] == out@[k]@);
                        assert(views_of(pre)[k] == pre[k]@);
                        assert(views_of(pre)[k] == chain_find_tx(self@, tx@.vin[k].txid).unwrap());
                    } else {
                        assert(views_of(out@)[k] == t@);
                    }
                }
            }
            i += 1;
        }
        proof {
            assert(views_of(out@) =~= chain_prevs(self@, tx@.vin));
        }
        Ok(out)
    }

    /// Sign a transaction against the previous transactions its inputs
    /// reference on this chain.
    pub fn sign_transaction(&self, tx: &mut Transaction, private_key: &[u8]) -> (r: Result<
        (),
        Error,
    >)
        requires
            private_key@.len() == 64,
        ensures
            r is Err ==> *final(tx) == *old(tx) && r == Err::<(), Error>(Error::Validation),
            is_coinbase_v(old(tx)@) ==> r is Ok && *final(tx) == *old(tx),
            !is_coinbase_v(old(tx)@) ==> (r is Ok <==> chain_has_prevs(self@, old(tx)@.vin)
                && sign_inputs_ok(old(tx)@, chain_prevs(self@, old(tx)@.vin))),
            !is_coinbase_v(old(tx)@) && r is Ok ==> {
                let t = final(tx)@;
                let prevs = chain_prevs(self@, old(tx)@.vin);
                &&& sign_inputs_ok(old(tx)@, prevs)
                &&& t.id == old(tx)@.id
                &&& t.vout == old(tx)@.vout
                &&& t.vin.len() == old(tx)@.vin.len()
                &&& forall|i: int|
                    0 <= i < t.vin.len() ==> {
                        let v = #[trigger] t.vin[i];
                        v.txid == old(tx)@.vin[i].txid && v.vout == old(tx)@.vin[i].vout
                            && v.pub_key == old(tx)@.vin[i].pub_key && v.signature
                            == crate::hashing::ed25519_sig_of(
                            crate::transaction::signing_digest_bytes(t, prevs, i),
                            private_key@,
                        ) && v.signature.len() == 64
                    }
            },
    {
        if tx.is_coinbase() {
            return Ok(());
        }
        let prev_txs = match self.get_prev_txs(tx) {
            Ok(v) => v,
            Err(_) => {
                return Err(Error::Validation);
            },
        };
        tx.sign(private_key, &prev_txs)
    }

    /// Check a transaction against the previous transactions its inputs
    /// reference on this chain; `NotFound` when one is missing.
    pub fn verify_transaction(&self, tx: &Transaction) -> (r: Result<bool, Error>)
        ensures
            match r {
                Ok(b) => b == crate::transaction::verify_ok_v(
                    tx@,
                    chain_prevs(self@, tx@.vin),
                ),
                Err(e) => e == Error::NotFound && !chain_has_prevs(self@, tx@.vin),
            },
            !is_coinbase_v(tx@) ==> (r is Err <==> !chain_has_prevs(self@, tx@.vin)),
    {
        if tx.is_coinbase() {
            return Ok(true);
        }
        let prev_txs = match self.get_prev_txs(tx) {
            Ok(v) => v,
            Err(_) => {
                return Err(Error::NotFound);
            },
        };
        Ok(tx.verify(&prev_txs))
    }
}

impl<'a> BlockchainIter<'a> {
    /// The position of the next block to yield; one below zero when done.
    pub closed spec fn pos_spec(&self) -> int {
        self.pos@
    }

    /// The chain being walked.
    pub closed spec fn chain_spec(&self) -> Seq<BlockV> {
        self.bc@
    }

    pub closed spec fn wf(&self) -> bool {
        &&& self.bc.wf()
        &&& -1 <= self.pos@ < self.bc@.len()
        &&& (self.pos@ >= 0 ==> self.current_hash@ == self.bc@[self.pos@].hash)
        &&& (self.pos@ < 0 ==> self.current_hash@.len() == 0)
    }

    /// Yield the next block walking backward, or nothing past the genesis.
    pub fn next(&mut self) -> (r: Option<Block>)
        requires
            old(self).wf(),
        ensures
            final(self).wf(),
            final(self).chain_spec() == old(self).chain_spec(),
            old(self).pos_spec() < 0 ==> r is None && final(self).pos_spec() == old(
                self,
            ).pos_spec(),
            old(self).pos_spec() >= 0 ==> {
                &&& final(self).pos_spec() == old(self).pos_spec() - 1
                &&& r matches Some(b) && b@ == old(self).chain_spec()[old(self).pos_spec()]
            },
    {
        if self.current_hash.as_str().is_empty() {
            proof {
                assert(self.pos@ < 0) by {
                    if self.pos@ >= 0 {
                        assert(self.bc@[self.pos@].hash.len() > 0);
                    }
                }
            }
            return None;
        }
        let ghost p = self.pos@;
        proof {
            assert(p >= 0);
        }
        let n = self.bc.blocks.len();
        let mut i: usize = 0;
        while i < n
            invariant
                i <= n,
                old(self).wf(),
                *self == *old(self),
                p == self.pos@,
                p >= 0,
                n == self.bc@.len(),
                forall|k: int| 0 <= k < i ==> self.bc@[k].hash != self.current_hash@,
            decreases n - i,
        {
            if self.bc.blocks[i].get_hash() == self.current_hash {
                proof {
                    assert(self.bc@[i as int].hash == self.bc@[p].hash);
                    assert(i as int == p);
                }
                let b = clone_block(&self.bc.blocks[i]);
                self.current_hash = b.get_prev_hash();
                proof {
                    self.pos@ = p - 1;
                    if p - 1 >= 0 {
                        assert(self.bc@[p].prev_block_hash == self.bc@[p - 1].hash);
                    } else {
                        assert(self.bc@[0].prev_block_hash.len() == 0);
                    }
                }
                return Some(b);
            }
            i += 1;
        }
        proof {
            assert(self.bc@[p].hash == self.current_hash@);
            assert(false);
        }
        None
    }
}

} // verus!
