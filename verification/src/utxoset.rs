//! The UTXO index: a derived cache mapping a transaction id to its
//! still-unspent outputs, rebuilt from the whole chain or folded forward one
//! block at a time. Rebuilding and folding agree: that is the central
//! invariant of the cache.

use vstd::prelude::*;

use crate::block::{Block, BlockV};
use crate::blockchain::Blockchain;
use crate::codec::views_of;
use crate::errors::Error;
use crate::transaction::{is_coinbase_v, Transaction, TransactionV};
use crate::tx::{TXInput, TXInputV, TXOutput, TXOutputV};

verus! {

/// An output still unspent, remembered together with its position in its
/// transaction's output list.
#[derive(Debug, Clone)]
pub struct IndexedOutput {
    pub idx: usize,
    pub out: TXOutput,
}

/// One index entry: the unspent outputs of one transaction.
#[derive(Debug, Clone)]
pub struct UtxoEntry {
    pub txid: String,
    pub outputs: Vec<IndexedOutput>,
}

#[verifier::ext_equal]
pub ghost struct IndexedOutputV {
    pub idx: usize,
    pub out: TXOutputV,
}

#[verifier::ext_equal]
pub ghost struct UtxoEntryV {
    pub txid: Seq<char>,
    pub outputs: Seq<IndexedOutputV>,
}

impl View for IndexedOutput {
    type V = IndexedOutputV;

    open spec fn view(&self) -> IndexedOutputV {
        IndexedOutputV { idx: self.idx, out: self.out@ }
    }
}

impl View for UtxoEntry {
    type V = UtxoEntryV;

    open spec fn view(&self) -> UtxoEntryV {
        UtxoEntryV { txid: self.txid@, outputs: views_of(self.outputs@) }
    }
}

/// The position of the entry for `id`, or a negative value if absent.
pub open spec fn idx_of(m: Seq<UtxoEntryV>, id: Seq<char>) -> int
    decreases m.len(),
{
    if m.len() == 0 {
        -1
    } else if m[0].txid == id {
        0
    } else {
        let r = idx_of(m.skip(1), id);
        if r < 0 {
            -1
        } else {
            r + 1
        }
    }
}

pub proof fn lemma_idx_of(m: Seq<UtxoEntryV>, id: Seq<char>)
    ensures
        -1 <= idx_of(m, id) < m.len(),
        idx_of(m, id) >= 0 ==> m[idx_of(m, id)].txid == id,
        idx_of(m, id) >= 0 ==> forall|k: int| 0 <= k < idx_of(m, id) ==> (#[trigger] m[k]).txid != id,
        idx_of(m, id) < 0 ==> forall|k: int| 0 <= k < m.len() ==> (#[trigger] m[k]).txid != id,
    decreases m.len(),
{
    if m.len() > 0 && m[0].txid != id {
        lemma_idx_of(m.skip(1), id);
        let r = idx_of(m.skip(1), id);
        if r >= 0 {
            assert(idx_of(m, id) == r + 1);
            assert(m[r + 1] == m.skip(1)[r]);
            assert forall|k: int| 0 <= k < r + 1 implies (#[trigger] m[k]).txid != id by {
                if k > 0 {
                    assert(m[k] == m.skip(1)[k - 1]);
                }
            }
        } else {
            assert forall|k: int| 0 <= k < m.len() implies (#[trigger] m[k]).txid != id by {
                if k > 0 {
                    assert(m[k] == m.skip(1)[k - 1]);
                }
            }
        }
    }
}

/// The entry's outputs with position `v` removed.
pub open spec fn remove_idx(outs: Seq<IndexedOutputV>, v: usize) -> Seq<IndexedOutputV>
    decreases outs.len(),
{
    if outs.len() == 0 {
        Seq::empty()
    } else {
        remove_idx(outs.drop_last(), v) + (if outs.last().idx == v {
            Seq::empty()
        } else {
            seq![outs.last()]
        })
    }
}

/// Spend one referenced output: drop position `v` from the entry of `txid`,
/// removing the entry when it empties; a missing entry spends nothing.
pub open spec fn spend_one(m: Seq<UtxoEntryV>, txid: Seq<char>, v: usize) -> Seq<UtxoEntryV> {
    let p = idx_of(m, txid);
    if p < 0 {
        m
    } else {
        let no = remove_idx(m[p].outputs, v);
        if no.len() == 0 {
            m.remove(p)
        } else {
            m.update(p, UtxoEntryV { txid: m[p].txid, outputs: no })
        }
    }
}

/// Spend every output referenced by the inputs, in input order.
pub open spec fn spend_vins(m: Seq<UtxoEntryV>, vins: Seq<TXInputV>) -> Seq<UtxoEntryV>
    decreases vins.len(),
{
    if vins.len() == 0 {
        m
    } else {
        let m2 = spend_vins(m, vins.drop_last());
        let last = vins.last();
        if last.vout < 0 {
            m2
        } else {
            spend_one(m2, last.txid, last.vout as usize)
        }
    }
}

/// A transaction's outputs paired with their positions.
pub open spec fn indexed(vout: Seq<TXOutputV>) -> Seq<IndexedOutputV> {
    Seq::new(vout.len(), |i: int| IndexedOutputV { idx: i as usize, out: vout[i] })
}

/// Record a transaction's full output list under its id, replacing any
/// previous entry.
pub open spec fn register(m: Seq<UtxoEntryV>, txid: Seq<char>, vout: Seq<TXOutputV>) -> Seq<
    UtxoEntryV,
> {
    let e = UtxoEntryV { txid, outputs: indexed(vout) };
    let p = idx_of(m, txid);
    if p < 0 {
        m.push(e)
    } else {
        m.update(p, e)
    }
}

/// Fold one transaction into the index: spend what its inputs reference
/// (never for a coinbase), then record its own outputs.
pub open spec fn apply_tx(m: Seq<UtxoEntryV>, t: TransactionV) -> Seq<UtxoEntryV> {
    register(
        if is_coinbase_v(t) {
            m
        } else {
            spend_vins(m, t.vin)
        },
        t.id,
        t.vout,
    )
}

pub open spec fn apply_txs(m: Seq<UtxoEntryV>, txs: Seq<TransactionV>) -> Seq<UtxoEntryV>
    decreases txs.len(),
{
    if txs.len() == 0 {
        m
    } else {
        apply_tx(apply_txs(m, txs.drop_last()), txs.last())
    }
}

/// Fold one block into the index.
pub open spec fn apply_block(m: Seq<UtxoEntryV>, b: BlockV) -> Seq<UtxoEntryV> {
    apply_txs(m, b.transactions)
}

/// Fold blocks into the index in append order.
pub open spec fn fold_updates(m: Seq<UtxoEntryV>, blocks: Seq<BlockV>) -> Seq<UtxoEntryV>
    decreases blocks.len(),
{
    if blocks.len() == 0 {
        m
    } else {
        apply_block(fold_updates(m, blocks.drop_last()), blocks.last())
    }
}

/// The index a chain earns from scratch: every block folded in append order
/// starting from an empty index.
pub open spec fn utxo_of_chain(c: Seq<BlockV>) -> Seq<UtxoEntryV> {
    fold_updates(Seq::empty(), c)
}

/// Rebuilding the index from scratch equals folding the incremental
/// per-block update over the chain's blocks in append order from an empty
/// index, for any chain. The rebuild is defined as that fold, so this holds
/// by definition; it stands as the written form of the cache's central
/// invariant, which `reindex` and `update` each promise exactly.
pub proof fn lemma_reindex_equals_update_fold(c: Seq<BlockV>)
    ensures
        utxo_of_chain(c) == fold_updates(Seq::empty(), c),
{
}

/// Appending one block and updating the index incrementally lands on the
/// same index that a full rebuild of the longer chain computes.
pub proof fn lemma_update_extends(c: Seq<BlockV>, b: BlockV)
    ensures
        utxo_of_chain(c.push(b)) == apply_block(utxo_of_chain(c), b),
{
    assert(c.push(b).drop_last() =~= c);
    assert(c.push(b).last() == b);
}

// ---------------------------------------------------------------------------
// balances and spendable-output selection, over the index
// ---------------------------------------------------------------------------

/// The outputs of one entry owned by `owner`, in order.
pub open spec fn owned_in_entry(outs: Seq<IndexedOutputV>, owner: Seq<u8>) -> Seq<TXOutputV>
    decreases outs.len(),
{
    if outs.len() == 0 {
        Seq::empty()
    } else {
        owned_in_entry(outs.drop_last(), owner) + (if outs.last().out.pub_key_hash == owner {
            seq![outs.last().out]
        } else {
            Seq::empty()
        })
    }
}

/// Every output in the index owned by `owner`, entry by entry.
pub open spec fn owned_outputs(m: Seq<UtxoEntryV>, owner: Seq<u8>) -> Seq<TXOutputV>
    decreases m.len(),
{
    if m.len() == 0 {
        Seq::empty()
    } else {
        owned_outputs(m.drop_last(), owner) + owned_in_entry(m.last().outputs, owner)
    }
}

/// The sum of output values.
pub open spec fn sum_values(s: Seq<TXOutputV>) -> int
    decreases s.len(),
{
    if s.len() == 0 {
        0int
    } else {
        sum_values(s.drop_last()) + s.last().value
    }
}

/// The running sum stays within a signed 64-bit accumulator.
pub open spec fn sum_fits(s: Seq<TXOutputV>) -> bool
    decreases s.len(),
{
    if s.len() == 0 {
        true
    } else {
        sum_fits(s.drop_last()) && i64::MIN <= sum_values(s) <= i64::MAX
    }
}

/// One chosen entry: a transaction id and the positions spent from it.
#[derive(Debug, Clone)]
pub struct SpendSel {
    pub txid: String,
    pub outs: Vec<usize>,
}

#[verifier::ext_equal]
pub ghost struct SpendSelV {
    pub txid: Seq<char>,
    pub outs: Seq<usize>,
}

impl View for SpendSel {
    type V = SpendSelV;

    open spec fn view(&self) -> SpendSelV {
        SpendSelV { txid: self.txid@, outs: self.outs@ }
    }
}

/// The state of the greedy scan: the accumulated value, the selections, and
/// whether every accumulation step stayed within the 64-bit accumulator.
#[verifier::ext_equal]
pub ghost struct GreedyV {
    pub acc: int,
    pub sel: Seq<usize>,
    pub ok: bool,
}

#[verifier::ext_equal]
pub ghost struct GreedySelV {
    pub acc: int,
    pub sel: Seq<SpendSelV>,
    pub ok: bool,
}

/// Scan one entry's outputs in order, taking each owned output while the
/// accumulated value is still below the requested amount.
pub open spec fn greedy_outs(
    acc: int,
    outs: Seq<IndexedOutputV>,
    owner: Seq<u8>,
    amount: int,
) -> GreedyV
    decreases outs.len(),
{
    if outs.len() == 0 {
        GreedyV { acc, sel: Seq::empty(), ok: true }
    } else {
        let st = greedy_outs(acc, outs.drop_last(), owner, amount);
        let o = outs.last();
        if st.acc < amount && o.out.pub_key_hash == owner {
            GreedyV {
                acc: st.acc + o.out.value,
                sel: st.sel.push(o.idx),
                ok: st.ok && i64::MIN <= st.acc + o.out.value <= i64::MAX,
            }
        } else {
            st
        }
    }
}

/// Scan the whole index entry by entry.
pub open spec fn greedy_sel(m: Seq<UtxoEntryV>, owner: Seq<u8>, amount: int) -> GreedySelV
    decreases m.len(),
{
    if m.len() == 0 {
        GreedySelV { acc: 0, sel: Seq::empty(), ok: true }
    } else {
        let st = greedy_sel(m.drop_last(), owner, amount);
        let e = m.last();
        let g = greedy_outs(st.acc, e.outputs, owner, amount);
        GreedySelV {
            acc: g.acc,
            sel: if g.sel.len() > 0 {
                st.sel.push(SpendSelV { txid: e.txid, outs: g.sel })
            } else {
                st.sel
            },
            ok: st.ok && g.ok,
        }
    }
}

/// Scanning an entry either reaches the requested amount or takes every
/// owned output it holds.
proof fn lemma_greedy_outs_sufficient(
    acc: int,
    outs: Seq<IndexedOutputV>,
    owner: Seq<u8>,
    amount: int,
)
    ensures
        greedy_outs(acc, outs, owner, amount).acc >= amount || greedy_outs(
            acc,
            outs,
            owner,
            amount,
        ).acc == acc + sum_values(owned_in_entry(outs, owner)),
    decreases outs.len(),
{
    if outs.len() > 0 {
        lemma_greedy_outs_sufficient(acc, outs.drop_last(), owner, amount);
        let pre = owned_in_entry(outs.drop_last(), owner);
        if outs.last().out.pub_key_hash == owner {
            assert(owned_in_entry(outs, owner) == pre + seq![outs.last().out]);
            assert(owned_in_entry(outs, owner).drop_last() =~= pre);
            assert(owned_in_entry(outs, owner).last() == outs.last().out);
        } else {
            assert(owned_in_entry(outs, owner) =~= pre);
        }
    }
}

/// The greedy scan never reports less than the requested amount when the
/// total value owned in the index covers it.
pub proof fn lemma_spendable_sufficient(m: Seq<UtxoEntryV>, owner: Seq<u8>, amount: int)
    requires
        sum_values(owned_outputs(m, owner)) >= amount,
    ensures
        greedy_sel(m, owner, amount).acc >= amount,
{
    lemma_greedy_dichotomy(m, owner, amount);
}

/// Either the scan reached the amount, or it swept the whole owned total.
proof fn lemma_greedy_dichotomy(m: Seq<UtxoEntryV>, owner: Seq<u8>, amount: int)
    ensures
        greedy_sel(m, owner, amount).acc >= amount || greedy_sel(m, owner, amount).acc
            == sum_values(owned_outputs(m, owner)),
    decreases m.len(),
{
    if m.len() > 0 {
        lemma_greedy_dichotomy(m.drop_last(), owner, amount);
        lemma_greedy_outs_sufficient(
            greedy_sel(m.drop_last(), owner, amount).acc,
            m.last().outputs,
            owner,
            amount,
        );
        lemma_sum_concat(
            owned_outputs(m.drop_last(), owner),
            owned_in_entry(m.last().outputs, owner),
        );
        let st = greedy_sel(m.drop_last(), owner, amount);
        let g = greedy_outs(st.acc, m.last().outputs, owner, amount);
        if g.acc < amount {
            assert(g.acc == st.acc + sum_values(owned_in_entry(m.last().outputs, owner)));
            if st.acc >= amount {
                lemma_greedy_outs_at_amount(st.acc, m.last().outputs, owner, amount);
            }
        }
    }
}

/// Once the amount is reached, the scan stops accumulating.
proof fn lemma_greedy_outs_at_amount(
    acc: int,
    outs: Seq<IndexedOutputV>,
    owner: Seq<u8>,
    amount: int,
)
    requires
        acc >= amount,
    ensures
        greedy_outs(acc, outs, owner, amount).acc == acc,
    decreases outs.len(),
{
    if outs.len() > 0 {
        lemma_greedy_outs_at_amount(acc, outs.drop_last(), owner, amount);
    }
}

// ---------------------------------------------------------------------------
// the executable index
// ---------------------------------------------------------------------------

/// The UTXO set: the ledger it is derived from, and the index itself.
pub struct UTXOSet {
    pub blockchain: Blockchain,
    pub index: Vec<UtxoEntry>,
}

impl UTXOSet {
    /// The index's mathematical content.
    pub open spec fn index_spec(&self) -> Seq<UtxoEntryV> {
        views_of(self.index@)
    }

    /// A fresh, empty index over a ledger.
    pub fn new(blockchain: Blockchain) -> (r: UTXOSet)
        ensures
            r.blockchain == blockchain,
            r.index_spec() == Seq::<UtxoEntryV>::empty(),
    {
        let r = UTXOSet { blockchain, index: Vec::new() };
        proof {
            assert(r.index_spec() =~= Seq::<UtxoEntryV>::empty());
        }
        r
    }
}

/// The position of the entry for `id` in the index, matching `idx_of`.
fn entry_pos(index: &Vec<UtxoEntry>, id: &String) -> (r: Option<usize>)
    ensures
        match r {
            Some(p) => p == idx_of(views_of(index@), id@) && p < index@.len(),
            None => idx_of(views_of(index@), id@) < 0,
        },
{
    let ghost m = views_of(index@);
    proof {
        lemma_idx_of(m, id@);
    }
    let n = index.len();
    let mut i: usize = 0;
    while i < n
        invariant
            i <= n,
            n == index@.len(),
            m == views_of(index@),
            -1 <= idx_of(m, id@) < m.len(),
            idx_of(m, id@) >= 0 ==> m[idx_of(m, id@)].txid == id@,
            idx_of(m, id@) >= 0 ==> forall|k: int|
                0 <= k < idx_of(m, id@) ==> (#[trigger] m[k]).txid != id@,
            idx_of(m, id@) < 0 ==> forall|k: int|
                0 <= k < m.len() ==> (#[trigger] m[k]).txid != id@,
            forall|k: int| 0 <= k < i ==> (#[trigger] m[k]).txid != id@,
        decreases n - i,
    {
        if index[i].txid == *id {
            proof {
                assert(m[i as int] == index@[i as int]@);
                assert(m[i as int].txid == id@);
                assert(idx_of(m, id@) >= 0);
                assert(idx_of(m, id@) == i) by {
                    if idx_of(m, id@) < i {
                        assert(m[idx_of(m, id@)].txid != id@);
                    }
                    if idx_of(m, id@) > i {
                        assert(m[i as int].txid != id@);
                    }
                }
            }
            return Some(i);
        }
        proof {
            assert(m[i as int] == index@[i as int]@);
        }
        i += 1;
    }
    proof {
        if idx_of(m, id@) >= 0 {
            assert(m[idx_of(m, id@)].txid != id@);
        }
    }
    None
}

/// Spend one referenced output in the index, as `spend_one` says.
fn spend_one_exec(index: &mut Vec<UtxoEntry>, txid: &String, v: usize)
    ensures
        views_of(final(index)@) == spend_one(views_of(old(index)@), txid@, v),
{
    let ghost m = views_of(index@);
    let p = match entry_pos(index, txid) {
        None => {
            return ;
        },
        Some(p) => p,
    };
    let ghost target = remove_idx(m[p as int].outputs, v);
    let n = index[p].outputs.len();
    let mut kept: Vec<IndexedOutput> = Vec::new();
    let mut j: usize = 0;
    proof {
        assert(views_of(index@[p as int].outputs@).take(0) =~= Seq::<IndexedOutputV>::empty());
        assert(remove_idx(views_of(index@[p as int].outputs@).take(0), v) =~= Seq::<
            IndexedOutputV,
        >::empty());
        assert(views_of(kept@) =~= Seq::<IndexedOutputV>::empty());
    }
    while j < n
        invariant
            j <= n,
            p < index@.len(),
            m == views_of(index@),
            n == index@[p as int].outputs@.len(),
            views_of(kept@) == remove_idx(views_of(index@[p as int].outputs@).take(j as int), v),
        decreases n - j,
    {
        let ghost outs = views_of(index@[p as int].outputs@);
        proof {
            assert(outs.take(j + 1 as int).drop_last() =~= outs.take(j as int));
            assert(outs.take(j + 1 as int).last() == outs[j as int]);
            assert(outs[j as int] == index@[p as int].outputs@[j as int]@);
        }
        if index[p].outputs[j].idx != v {
            let io = IndexedOutput {
                idx: index[p].outputs[j].idx,
                out: TXOutput {
                    value: index[p].outputs[j].out.value,
                    pub_key_hash: crate::tx::clone_vec_u8(&index[p].outputs[j].out.pub_key_hash),
                },
            };
            let ghost pre = kept@;
            kept.push(io);
            proof {
                assert(views_of(pre).len() == pre.len());
                assert(kept@ == pre.push(io));
                assert(views_of(kept@)[pre.len() as int] == io@);
                assert(io@ =~= outs[j as int]);
                assert forall|k: int| 0 <= k < pre.len() implies views_of(kept@)[k] == views_of(
                    pre,
                )[k] by {
                    assert(kept@[k] == pre[k]);
                    assert(views_of(kept@)[k] == kept@[k]@);
                    assert(views_of(pre)[k] == pre[k]@);
                }
                assert(views_of(kept@) =~= remove_idx(outs.take(j + 1 as int), v));
            }
        } else {
            proof {
                assert(views_of(kept@) =~= remove_idx(outs.take(j + 1 as int), v));
            }
        }
        j += 1;
    }
    proof {
        assert(views_of(index@[p as int].outputs@).take(n as int) =~= views_of(
            index@[p as int].outputs@,
        ));
        assert(m[p as int].outputs == views_of(index@[p as int].outputs@)) by {
            assert(m[p as int] == index@[p as int]@);
        }
        assert(views_of(kept@) == target);
    }
    if kept.len() == 0 {
        let ghost pre = index@;
        index.remove(p);
        proof {
            assert(index@ =~= pre.remove(p as int));
            assert forall|k: int| 0 <= k < index@.len() implies #[trigger] views_of(index@)[k]
                == views_of(pre).remove(p as int)[k] by {
                assert(views_of(index@)[k] == index@[k]@);
                if k < p {
                    assert(index@[k] == pre[k]);
                    assert(views_of(pre)[k] == pre[k]@);
                } else {
                    assert(index@[k] == pre[k + 1]);
                    assert(views_of(pre)[k + 1] == pre[k + 1]@);
                }
            }
            assert(views_of(index@) =~= views_of(pre).remove(p as int));
            assert(views_of(index@) == spend_one(m, txid@, v));
        }
    } else {
        let txid2 = index[p].txid.clone();
        let e = UtxoEntry { txid: txid2, outputs: kept };
        let ghost ev = e@;
        let ghost pre = index@;
        index.remove(p);
        index.insert(p, e);
        proof {
            assert(index@ =~= pre.remove(p as int).insert(p as int, e));
            assert(index@ =~= pre.update(p as int, e));
            assert forall|k: int| 0 <= k < index@.len() implies #[trigger] views_of(index@)[k]
                == views_of(pre).update(p as int, ev)[k] by {
                assert(views_of(index@)[k] == index@[k]@);
                if k != p {
                    assert(index@[k] == pre[k]);
                    assert(views_of(pre)[k] == pre[k]@);
                } else {
                    assert(index@[k] == e);
                }
            }
            assert(views_of(index@) =~= views_of(pre).update(p as int, ev));
            assert(ev =~= (UtxoEntryV { txid: m[p as int].txid, outputs: target }));
            assert(views_of(index@) == spend_one(m, txid@, v));
        }
    }
}

/// Record a transaction's outputs in the index, as `register` says.
fn register_exec(index: &mut Vec<UtxoEntry>, txid: &String, vout: &Vec<TXOutput>)
    ensures
        views_of(final(index)@) == register(
            views_of(old(index)@),
            txid@,
            views_of(vout@),
        ),
{
    let ghost m = views_of(index@);
    let n = vout.len();
    let mut outs: Vec<IndexedOutput> = Vec::new();
    let mut j: usize = 0;
    while j < n
        invariant
            j <= n,
            n == vout@.len(),
            views_of(outs@).len() == j,
            forall|k: int|
                0 <= k < j ==> #[trigger] views_of(outs@)[k] == indexed(views_of(vout@))[k],
        decreases n - j,
    {
        let io = IndexedOutput {
            idx: j,
            out: TXOutput {
                value: vout[j].value,
                pub_key_hash: crate::tx::clone_vec_u8(&vout[j].pub_key_hash),
            },
        };
        let ghost pre = outs@;
        outs.push(io);
        proof {
            assert(views_of(pre).len() == pre.len());
            assert(outs@ == pre.push(io));
            assert(views_of(outs@)[j as int] == io@);
            assert(views_of(vout@)[j as int] == vout@[j as int]@);
            assert(io@ =~= indexed(views_of(vout@))[j as int]);
            assert forall|k: int| 0 <= k < j + 1 implies #[trigger] views_of(outs@)[k] == indexed(
                views_of(vout@),
            )[k] by {
                if k < j {
                    assert(outs@[k] == pre[k]);
                    assert(views_of(outs@)[k] == outs@[k]@);
                    assert(views_of(pre)[k] == pre[k]@);
                } else {
                    assert(views_of(outs@)[k] == io@);
                }
            }
        }
        j += 1;
    }
    let e = UtxoEntry { txid: txid.clone(), outputs: outs };
    let ghost ev = e@;
    proof {
        assert(ev.outputs =~= indexed(views_of(vout@)));
        assert(ev =~= (UtxoEntryV { txid: txid@, outputs: indexed(views_of(vout@)) }));
    }
    match entry_pos(index, txid) {
        None => {
            let ghost pre = index@;
            index.push(e);
            proof {
                assert(views_of(pre).len() == pre.len());
                assert(index@ == pre.push(e));
                assert(views_of(index@)[pre.len() as int] == ev);
                assert forall|k: int| 0 <= k < pre.len() implies views_of(index@)[k] == views_of(
                    pre,
                )[k] by {
                    assert(index@[k] == pre[k]);
                    assert(views_of(index@)[k] == index@[k]@);
                    assert(views_of(pre)[k] == pre[k]@);
                }
                assert(views_of(index@) =~= views_of(pre).push(ev));
                assert(views_of(index@) == register(m, txid@, views_of(vout@)));
            }
        },
        Some(p) => {
            let ghost pre = index@;
            index.remove(p);
            index.insert(p, e);
            proof {
                assert(index@ =~= pre.remove(p as int).insert(p as int, e));
                assert(index@ =~= pre.update(p as int, e));
                assert forall|k: int| 0 <= k < index@.len() implies #[trigger] views_of(index@)[k]
                    == views_of(pre).update(p as int, ev)[k] by {
                    assert(views_of(index@)[k] == index@[k]@);
                    if k != p {
                        assert(index@[k] == pre[k]);
                        assert(views_of(pre)[k] == pre[k]@);
                    } else {
                        assert(index@[k] == e);
                    }
                }
                assert(views_of(index@) =~= views_of(pre).update(p as int, ev));
                assert(views_of(index@) == register(m, txid@, views_of(vout@)));
            }
        },
    }
}

/// Fold one transaction into the index, as `apply_tx` says.
fn apply_tx_exec(index: &mut Vec<UtxoEntry>, tx: &Transaction)
    ensures
        views_of(final(index)@) == apply_tx(views_of(old(index)@), tx@),
{
    let ghost m0 = views_of(index@);
    if !tx.is_coinbase() {
        let n = tx.vin.len();
        let mut i: usize = 0;
        proof {
            assert(tx@.vin.take(0) =~= Seq::<TXInputV>::empty());
            assert(spend_vins(m0, tx@.vin.take(0)) == m0);
        }
        while i < n
            invariant
                i <= n,
                n == tx@.vin.len(),
                views_of(index@) == spend_vins(m0, tx@.vin.take(i as int)),
            decreases n - i,
        {
            let ghost vins = tx@.vin;
            proof {
                assert(vins.take(i + 1 as int).drop_last() =~= vins.take(i as int));
                assert(vins.take(i + 1 as int).last() == vins[i as int]);
                assert(tx@.vin[i as int] == tx.vin@[i as int]@);
            }
            if tx.vin[i].vout >= 0 {
                spend_one_exec(index, &tx.vin[i].txid, tx.vin[i].vout as usize);
            }
            i += 1;
        }
        proof {
            assert(tx@.vin.take(n as int) =~= tx@.vin);
        }
    }
    register_exec(index, &tx.id, &tx.vout);
    proof {
        assert(views_of(tx.vout@) == tx@.vout);
    }
}

impl UTXOSet {
    /// Rebuild the index from scratch: wipe it, then fold every block of the
    /// ledger in append order.
    pub fn reindex(&mut self)
        ensures
            final(self).blockchain == old(self).blockchain,
            final(self).index_spec() == utxo_of_chain(old(self).blockchain@),
    {
        self.index.clear();
        proof {
            assert(views_of(self.index@) =~= Seq::<UtxoEntryV>::empty());
        }
        let n = self.blockchain.block_count();
        let ghost c = self.blockchain@;
        let mut bi: usize = 0;
        proof {
            assert(c.take(0) =~= Seq::<BlockV>::empty());
        }
        while bi < n
            invariant
                bi <= n,
                n == self.blockchain@.len(),
                c == self.blockchain@,
                self.blockchain == old(self).blockchain,
                views_of(self.index@) == fold_updates(Seq::<UtxoEntryV>::empty(), c.take(bi as int)),
            decreases n - bi,
        {
            proof {
                assert(c.take(bi + 1 as int).drop_last() =~= c.take(bi as int));
                assert(c.take(bi + 1 as int).last() == c[bi as int]);
            }
            let b = self.blockchain.get_block_at(bi);
            let txs = b.get_transactions();
            let ghost ts = c[bi as int].transactions;
            let ghost m0 = views_of(self.index@);
            let tn = txs.len();
            let mut ti: usize = 0;
            proof {
                assert(ts.take(0) =~= Seq::<TransactionV>::empty());
            }
            while ti < tn
                invariant
                    ti <= tn,
                    tn == ts.len(),
                    ts == views_of(txs@),
                    self.blockchain == old(self).blockchain,
                    c == self.blockchain@,
                    n == self.blockchain@.len(),
                    views_of(self.index@) == apply_txs(m0, ts.take(ti as int)),
                decreases tn - ti,
            {
                proof {
                    assert(ts.take(ti + 1 as int).drop_last() =~= ts.take(ti as int));
                    assert(ts.take(ti + 1 as int).last() == ts[ti as int]);
                    assert(ts[ti as int] == txs@[ti as int]@);
                }
                apply_tx_exec(&mut self.index, &txs[ti]);
                ti += 1;
            }
            proof {
                assert(ts.take(tn as int) =~= ts);
            }
            bi += 1;
        }
        proof {
            assert(c.take(n as int) =~= c);
        }
    }

    /// Fold one block into the index, right after it was appended to the
    /// ledger.
    pub fn update(&mut self, block: &Block)
        ensures
            final(self).blockchain == old(self).blockchain,
            final(self).index_spec() == apply_block(old(self).index_spec(), block@),
    {
        let txs = block.get_transactions();
        let ghost ts = block@.transactions;
        let ghost m0 = views_of(self.index@);
        let tn = txs.len();
        let mut ti: usize = 0;
        proof {
            assert(ts.take(0) =~= Seq::<TransactionV>::empty());
        }
        while ti < tn
            invariant
                ti <= tn,
                tn == ts.len(),
                ts == views_of(txs@),
                self.blockchain == old(self).blockchain,
                views_of(self.index@) == apply_txs(m0, ts.take(ti as int)),
            decreases tn - ti,
        {
            proof {
                assert(ts.take(ti + 1 as int).drop_last() =~= ts.take(ti as int));
                assert(ts.take(ti + 1 as int).last() == ts[ti as int]);
                assert(ts[ti as int] == txs@[ti as int]@);
            }
            apply_tx_exec(&mut self.index, &txs[ti]);
            ti += 1;
        }
        proof {
            assert(ts.take(tn as int) =~= ts);
        }
    }

    /// The number of distinct transaction ids in the index; an error when it
    /// does not fit the returned integer type.
    pub fn count_transactions(&self) -> (r: Result<i32, Error>)
        ensures
            self.index_spec().len() <= i32::MAX ==> r == Ok::<i32, Error>(
                self.index_spec().len() as i32,
            ),
            self.index_spec().len() > i32::MAX ==> r == Err::<i32, Error>(Error::Overflow),
    {
        let n = self.index.len();
        if n > i32::MAX as usize {
            return Err(Error::Overflow);
        }
        Ok(n as i32)
    }

    /// Every unspent output owned by `pub_key_hash`, for balance queries.
    pub fn find_UTXO(&self, pub_key_hash: &[u8]) -> (r: Vec<TXOutput>)
        ensures
            views_of(r@) == owned_outputs(self.index_spec(), pub_key_hash@),
    {
        let mut out: Vec<TXOutput> = Vec::new();
        let n = self.index.len();
        let ghost m = self.index_spec();
        let mut i: usize = 0;
        proof {
            assert(m.take(0) =~= Seq::<UtxoEntryV>::empty());
            assert(views_of(out@) =~= owned_outputs(m.take(0), pub_key_hash@));
        }
        while i < n
            invariant
                i <= n,
                n == self.index@.len(),
                m == self.index_spec(),
                views_of(out@) == owned_outputs(m.take(i as int), pub_key_hash@),
            decreases n - i,
        {
            proof {
                assert(m.take(i + 1 as int).drop_last() =~= m.take(i as int));
                assert(m.take(i + 1 as int).last() == m[i as int]);
                assert(m[i as int] == self.index@[i as int]@);
            }
            let ghost outer_pre = views_of(out@);
            let ghost outs = m[i as int].outputs;
            let en = self.index[i].outputs.len();
            let mut j: usize = 0;
            proof {
                assert(outs.take(0) =~= Seq::<IndexedOutputV>::empty());
                assert(outer_pre + owned_in_entry(outs.take(0), pub_key_hash@) =~= outer_pre);
            }
            while j < en
                invariant
                    j <= en,
                    i < n == self.index@.len(),
                    m == self.index_spec(),
                    outs == m[i as int].outputs,
                    en == outs.len(),
                    views_of(out@) == outer_pre + owned_in_entry(
                        outs.take(j as int),
                        pub_key_hash@,
                    ),
                decreases en - j,
            {
                proof {
                    assert(outs.take(j + 1 as int).drop_last() =~= outs.take(j as int));
                    assert(outs.take(j + 1 as int).last() == outs[j as int]);
                    assert(m[i as int] == self.index@[i as int]@);
                    assert(outs[j as int] == self.index@[i as int].outputs@[j as int]@);
                }
                if self.index[i].outputs[j].out.is_locked_with_key(pub_key_hash) {
                    let o = TXOutput {
                        value: self.index[i].outputs[j].out.value,
                        pub_key_hash: crate::tx::clone_vec_u8(
                            &self.index[i].outputs[j].out.pub_key_hash,
                        ),
                    };
                    let ghost pre = out@;
                    out.push(o);
                    proof {
                        assert(views_of(pre).len() == pre.len());
                        assert(out@ == pre.push(o));
                        assert(views_of(out@)[pre.len() as int] == o@);
                        assert(o@ =~= outs[j as int].out);
                        assert forall|k: int| 0 <= k < pre.len() implies views_of(out@)[k]
                            == views_of(pre)[k] by {
                            assert(out@[k] == pre[k]);
                            assert(views_of(out@)[k] == out@[k]@);
                            assert(views_of(pre)[k] == pre[k]@);
                        }
                        assert(owned_in_entry(outs.take(j + 1 as int), pub_key_hash@)
                            == owned_in_entry(outs.take(j as int), pub_key_hash@) + seq![
                            outs[j as int].out,
                        ]);
                        assert(outer_pre + (owned_in_entry(outs.take(j as int), pub_key_hash@)
                            + seq![outs[j as int].out]) =~= (outer_pre + owned_in_entry(
                            outs.take(j as int),
                            pub_key_hash@,
                        )) + seq![outs[j as int].out]);
                        assert(views_of(out@) =~= outer_pre + owned_in_entry(
                            outs.take(j + 1 as int),
                            pub_key_hash@,
                        ));
                    }
                } else {
                    proof {
                        assert(owned_in_entry(outs.take(j + 1 as int), pub_key_hash@)
                            =~= owned_in_entry(outs.take(j as int), pub_key_hash@));
                        assert(views_of(out@) =~= outer_pre + owned_in_entry(
                            outs.take(j + 1 as int),
                            pub_key_hash@,
                        ));
                    }
                }
                j += 1;
            }
            proof {
                assert(outs.take(en as int) =~= outs);
            }
            i += 1;
        }
        proof {
            assert(m.take(n as int) =~= m);
        }
        out
    }

    /// Scan the index for outputs owned by `pub_key_hash`, accumulating
    /// until the requested amount is covered or the index is exhausted; the
    /// caller checks whether the accumulated value suffices. Fails only when
    /// the running sum leaves the 64-bit accumulator.
    pub fn find_spendable_outputs(&self, pub_key_hash: &[u8], amount: i32) -> (r: Result<
        (i64, Vec<SpendSel>),
        Error,
    >)
        ensures
            ({
                let g = greedy_sel(self.index_spec(), pub_key_hash@, amount as int);
                match r {
                    Ok((acc, sel)) => g.ok && acc == g.acc && views_of(sel@) == g.sel,
                    Err(e) => e == Error::Overflow && !g.ok,
                }
            }),
    {
        let ghost m = self.index_spec();
        let ghost owner = pub_key_hash@;
        let ghost amt = amount as int;
        let mut acc: i64 = 0;
        let mut sel: Vec<SpendSel> = Vec::new();
        let n = self.index.len();
        let mut i: usize = 0;
        proof {
            assert(m.take(0) =~= Seq::<UtxoEntryV>::empty());
            assert(views_of(sel@) =~= greedy_sel(m.take(0), owner, amt).sel);
        }
        while i < n
            invariant
                i <= n,
                n == self.index@.len(),
                m == self.index_spec(),
                owner == pub_key_hash@,
                amt == amount as int,
                greedy_sel(m.take(i as int), owner, amt).ok,
                acc == greedy_sel(m.take(i as int), owner, amt).acc,
                views_of(sel@) == greedy_sel(m.take(i as int), owner, amt).sel,
            decreases n - i,
        {
            proof {
                assert(m.take(i + 1 as int).drop_last() =~= m.take(i as int));
                assert(m.take(i + 1 as int).last() == m[i as int]);
                assert(m[i as int] == self.index@[i as int]@);
            }
            let ghost st0 = greedy_sel(m.take(i as int), owner, amt);
            let ghost outs = m[i as int].outputs;
            let en = self.index[i].outputs.len();
            let mut taken: Vec<usize> = Vec::new();
            let mut j: usize = 0;
            proof {
                assert(outs.take(0) =~= Seq::<IndexedOutputV>::empty());
                assert(taken@ =~= greedy_outs(st0.acc, outs.take(0), owner, amt).sel);
            }
            while j < en
                invariant
                    j <= en,
                    i < n == self.index@.len(),
                    m == self.index_spec(),
                    owner == pub_key_hash@,
                    amt == amount as int,
                    outs == m[i as int].outputs,
                    en == outs.len(),
                    st0 == greedy_sel(m.take(i as int), owner, amt),
                    greedy_outs(st0.acc, outs.take(j as int), owner, amt).ok,
                    acc == greedy_outs(st0.acc, outs.take(j as int), owner, amt).acc,
                    taken@ == greedy_outs(st0.acc, outs.take(j as int), owner, amt).sel,
                decreases en - j,
            {
                proof {
                    assert(outs.take(j + 1 as int).drop_last() =~= outs.take(j as int));
                    assert(outs.take(j + 1 as int).last() == outs[j as int]);
                    assert(m[i as int] == self.index@[i as int]@);
                    assert(outs[j as int] == self.index@[i as int].outputs@[j as int]@);
                }
                let owned = self.index[i].outputs[j].out.is_locked_with_key(pub_key_hash);
                if (acc as i64) < (amount as i64) && owned {
                    let v = self.index[i].outputs[j].out.value;
                    let wide: i64 = v as i64;
                    if (wide >= 0 && acc > i64::MAX - wide) || (wide < 0 && acc < i64::MIN
                        - wide) {
                        proof {
                            assert(!greedy_outs(st0.acc, outs.take(j + 1 as int), owner, amt).ok);
                            lemma_greedy_outs_ok_prefix(st0.acc, outs, owner, amt, j + 1 as int);
                            assert(m.take(i + 1 as int).drop_last() =~= m.take(i as int));
                            assert(m.take(i + 1 as int).last() == m[i as int]);
                            assert(!greedy_sel(m.take(i + 1 as int), owner, amt).ok);
                            lemma_greedy_sel_ok_prefix(m, owner, amt, i + 1 as int);
                        }
                        return Err(Error::Overflow);
                    }
                    acc = acc + wide;
                    taken.push(self.index[i].outputs[j].idx);
                    proof {
                        assert(greedy_outs(st0.acc, outs.take(j + 1 as int), owner, amt).ok);
                        assert(acc == greedy_outs(st0.acc, outs.take(j + 1 as int), owner, amt).acc);
                        assert(taken@ =~= greedy_outs(st0.acc, outs.take(j + 1 as int), owner, amt).sel);
                    }
                } else {
                    proof {
                        assert(greedy_outs(st0.acc, outs.take(j + 1 as int), owner, amt)
                            == greedy_outs(st0.acc, outs.take(j as int), owner, amt));
                    }
                }
                j += 1;
            }
            proof {
                assert(outs.take(en as int) =~= outs);
            }
            if taken.len() > 0 {
                let entry = SpendSel { txid: self.index[i].txid.clone(), outs: taken };
                let ghost ev = entry@;
                let ghost pre = sel@;
                sel.push(entry);
                proof {
                    assert(views_of(pre).len() == pre.len());
                    assert(sel@ == pre.push(entry));
                    assert(views_of(sel@)[pre.len() as int] == ev);
                    assert(ev =~= (SpendSelV {
                        txid: m[i as int].txid,
                        outs: greedy_outs(st0.acc, outs, owner, amt).sel,
                    }));
                    assert forall|k: int| 0 <= k < pre.len() implies views_of(sel@)[k] == views_of(
                        pre,
                    )[k] by {
                        assert(sel@[k] == pre[k]);
                        assert(views_of(sel@)[k] == sel@[k]@);
                        assert(views_of(pre)[k] == pre[k]@);
                    }
                    assert(views_of(sel@) =~= greedy_sel(m.take(i + 1 as int), owner, amt).sel);
                }
            } else {
                proof {
                    assert(views_of(sel@) =~= greedy_sel(m.take(i + 1 as int), owner, amt).sel);
                }
            }
            i += 1;
        }
        proof {
            assert(m.take(n as int) =~= m);
        }
        Ok((acc, sel))
    }
}

impl Blockchain {
    /// Compute the unspent outputs of every transaction by a direct scan of
    /// the whole chain, oldest block first, independent of any maintained
    /// index.
    #[allow(non_snake_case)]
    pub fn find_UTXO(&self) -> (r: Vec<UtxoEntry>)
        ensures
            views_of(r@) == utxo_of_chain(self@),
    {
        let mut acc: Vec<UtxoEntry> = Vec::new();
        proof {
            assert(views_of(acc@) =~= Seq::<UtxoEntryV>::empty());
        }
        let n = self.block_count();
        let ghost c = self@;
        let mut bi: usize = 0;
        proof {
            assert(c.take(0) =~= Seq::<BlockV>::empty());
        }
        while bi < n
            invariant
                bi <= n,
                n == self@.len(),
                c == self@,
                views_of(acc@) == fold_updates(Seq::<UtxoEntryV>::empty(), c.take(bi as int)),
            decreases n - bi,
        {
            proof {
                assert(c.take(bi + 1 as int).drop_last() =~= c.take(bi as int));
                assert(c.take(bi + 1 as int).last() == c[bi as int]);
            }
            let b = self.get_block_at(bi);
            let txs = b.get_transactions();
            let ghost ts = c[bi as int].transactions;
            let ghost m0 = views_of(acc@);
            let tn = txs.len();
            let mut ti: usize = 0;
            proof {
                assert(ts.take(0) =~= Seq::<TransactionV>::empty());
            }
            while ti < tn
                invariant
                    ti <= tn,
                    tn == ts.len(),
                    ts == views_of(txs@),
                    views_of(acc@) == apply_txs(m0, ts.take(ti as int)),
                decreases tn - ti,
            {
                proof {
                    assert(ts.take(ti + 1 as int).drop_last() =~= ts.take(ti as int));
                    assert(ts.take(ti + 1 as int).last() == ts[ti as int]);
                    assert(ts[ti as int] == txs@[ti as int]@);
                }
                apply_tx_exec(&mut acc, &txs[ti]);
                ti += 1;
            }
            proof {
                assert(ts.take(tn as int) =~= ts);
            }
            bi += 1;
        }
        proof {
            assert(c.take(n as int) =~= c);
        }
        acc
    }
}

/// The inputs a spend builds from a selection: one per chosen output
/// position, carrying the sender's key bytes, unsigned.
pub open spec fn sel_entry_inputs(e: SpendSelV, owner: Seq<u8>) -> Seq<TXInputV> {
    Seq::new(
        e.outs.len(),
        |i: int|
            TXInputV {
                txid: e.txid,
                vout: e.outs[i] as i32,
                signature: Seq::empty(),
                pub_key: owner,
            },
    )
}

pub open spec fn sel_inputs(sel: Seq<SpendSelV>, owner: Seq<u8>) -> Seq<TXInputV>
    decreases sel.len(),
{
    if sel.len() == 0 {
        Seq::empty()
    } else {
        sel_inputs(sel.drop_last(), owner) + sel_entry_inputs(sel.last(), owner)
    }
}

/// Every chosen position fits the signed 32-bit index an input carries.
pub open spec fn sel_fits_i32(sel: Seq<SpendSelV>) -> bool {
    forall|k: int, j: int|
        0 <= k < sel.len() && 0 <= j < (#[trigger] sel[k]).outs.len() ==> (#[trigger] sel[k].outs[j])
            <= i32::MAX
}

impl Transaction {
    /// Build a spend of `amount` from the owner of `from` to the owner of
    /// `to`: select spendable outputs from the index, reference each by one
    /// input, pay `amount` to the receiver and return any change. Fails with
    /// `InsufficientFunds` carrying the accumulated value when the owned
    /// total cannot cover the amount, and with `Overflow` when a sum or an
    /// output position leaves its machine type.
    #[allow(non_snake_case)]
    pub fn new_UTXO(from: &[u8], to: &[u8], amount: i32, utxo: &UTXOSet) -> (r: Result<
        Transaction,
        Error,
    >)
        ensures
            ({
                let g = greedy_sel(utxo.index_spec(), from@, amount as int);
                match r {
                    Ok(t) => {
                        &&& g.ok && g.acc >= amount && sel_fits_i32(g.sel)
                        &&& t@.vin == sel_inputs(g.sel, from@)
                        &&& t@.vout.len() == (if g.acc > amount {
                            2int
                        } else {
                            1int
                        })
                        &&& t@.vout[0] == (TXOutputV { value: amount, pub_key_hash: to@ })
                        &&& (g.acc > amount ==> t@.vout[1] == (TXOutputV {
                            value: (g.acc - amount) as i32,
                            pub_key_hash: from@,
                        }) && g.acc - amount <= i32::MAX)
                        &&& t@.id == crate::transaction::txid_of(t@.vin, t@.vout)
                    },
                    Err(e) => {
                        ||| (e == Error::InsufficientFunds(g.acc as i64) && g.ok && g.acc < amount)
                        ||| (e == Error::Overflow && (!g.ok || !sel_fits_i32(g.sel) || (g.acc
                            > amount && g.acc - amount > i32::MAX)))
                    },
                }
            }),
    {
        let ghost g = greedy_sel(utxo.index_spec(), from@, amount as int);
        let (acc, sel) = match utxo.find_spendable_outputs(from, amount) {
            Ok(p) => p,
            Err(e) => {
                return Err(e);
            },
        };
        if acc < amount as i64 {
            return Err(Error::InsufficientFunds(acc));
        }
        let mut vin: Vec<TXInput> = Vec::new();
        let sn = sel.len();
        let mut k: usize = 0;
        proof {
            assert(g.sel.take(0) =~= Seq::<SpendSelV>::empty());
            assert(views_of(vin@) =~= sel_inputs(g.sel.take(0), from@));
        }
        while k < sn
            invariant
                k <= sn,
                sn == sel@.len(),
                g == greedy_sel(utxo.index_spec(), from@, amount as int),
                views_of(sel@) == g.sel,
                forall|q: int, jj: int|
                    0 <= q < k && 0 <= jj < (#[trigger] g.sel[q]).outs.len() ==> (
                    #[trigger] g.sel[q].outs[jj]) <= i32::MAX,
                views_of(vin@) == sel_inputs(g.sel.take(k as int), from@),
            decreases sn - k,
        {
            proof {
                assert(g.sel.take(k + 1 as int).drop_last() =~= g.sel.take(k as int));
                assert(g.sel.take(k + 1 as int).last() == g.sel[k as int]);
                assert(g.sel[k as int] == sel@[k as int]@);
            }
            let ghost e = g.sel[k as int];
            let ghost outer_pre = views_of(vin@);
            let en = sel[k].outs.len();
            let mut j: usize = 0;
            proof {
                assert(views_of(vin@) =~= outer_pre + sel_entry_inputs(e, from@).take(0));
            }
            while j < en
                invariant
                    j <= en,
                    k < sn == sel@.len(),
                    g == greedy_sel(utxo.index_spec(), from@, amount as int),
                    views_of(sel@) == g.sel,
                    e == g.sel[k as int],
                    en == e.outs.len(),
                    forall|q: int, jj: int|
                        0 <= q < k && 0 <= jj < (#[trigger] g.sel[q]).outs.len() ==> (
                        #[trigger] g.sel[q].outs[jj]) <= i32::MAX,
                    forall|jj: int| 0 <= jj < j ==> (#[trigger] e.outs[jj]) <= i32::MAX,
                    views_of(vin@) == outer_pre + sel_entry_inputs(e, from@).take(j as int),
                decreases en - j,
            {
                proof {
                    assert(sel@[k as int]@ == e);
                    assert(e.outs[j as int] == sel@[k as int].outs@[j as int]);
                }
                if sel[k].outs[j] > i32::MAX as usize {
                    proof {
                        assert(g.sel[k as int].outs[j as int] > i32::MAX);
                        assert(!sel_fits_i32(g.sel));
                    }
                    return Err(Error::Overflow);
                }
                let inp = TXInput {
                    txid: sel[k].txid.clone(),
                    vout: sel[k].outs[j] as i32,
                    signature: Vec::new(),
                    pub_key: vstd::slice::slice_to_vec(from),
                };
                let ghost pre = vin@;
                vin.push(inp);
                proof {
                    assert(views_of(pre).len() == pre.len());
                    assert(vin@ == pre.push(inp));
                    assert(views_of(vin@)[pre.len() as int] == inp@);
                    assert(inp@ =~= sel_entry_inputs(e, from@)[j as int]);
                    assert(sel_entry_inputs(e, from@).take(j + 1 as int) =~= sel_entry_inputs(
                        e,
                        from@,
                    ).take(j as int).push(sel_entry_inputs(e, from@)[j as int]));
                    assert(outer_pre + sel_entry_inputs(e, from@).take(j + 1 as int) =~= (outer_pre
                        + sel_entry_inputs(e, from@).take(j as int)) + seq![
                        sel_entry_inputs(e, from@)[j as int],
                    ]);
                    assert forall|q: int| 0 <= q < pre.len() implies views_of(vin@)[q] == views_of(
                        pre,
                    )[q] by {
                        assert(vin@[q] == pre[q]);
                        assert(views_of(vin@)[q] == vin@[q]@);
                        assert(views_of(pre)[q] == pre[q]@);
                    }
                    assert(views_of(vin@) =~= outer_pre + sel_entry_inputs(e, from@).take(
                        j + 1 as int,
                    ));
                }
                j += 1;
            }
            proof {
                assert(sel_entry_inputs(e, from@).take(en as int) =~= sel_entry_inputs(e, from@));
                assert(views_of(vin@) =~= sel_inputs(g.sel.take(k + 1 as int), from@));
            }
            k += 1;
        }
        proof {
            assert(g.sel.take(sn as int) =~= g.sel);
            assert(sel_fits_i32(g.sel));
        }
        let mut vout: Vec<TXOutput> = Vec::new();
        vout.push(TXOutput { value: amount, pub_key_hash: vstd::slice::slice_to_vec(to) });
        if acc > amount as i64 {
            let change: i128 = (acc as i128) - (amount as i128);
            if change > i32::MAX as i128 {
                return Err(Error::Overflow);
            }
            vout.push(
                TXOutput { value: change as i32, pub_key_hash: vstd::slice::slice_to_vec(from) },
            );
        }
        let mut tx = Transaction { id: String::new(), vin, vout };
        tx.set_id();
        Ok(tx)
    }
}

/// Sum the values of an output list; an error when the running sum leaves
/// the 64-bit range.
pub fn sum_outputs(outs: &Vec<TXOutput>) -> (r: Result<i64, Error>)
    ensures
        sum_fits(views_of(outs@)) ==> r == Ok::<i64, Error>(
            sum_values(views_of(outs@)) as i64,
        ),
        !sum_fits(views_of(outs@)) ==> r == Err::<i64, Error>(Error::Overflow),
{
    let ghost s = views_of(outs@);
    let mut acc: i64 = 0;
    let n = outs.len();
    let mut i: usize = 0;
    proof {
        assert(s.take(0) =~= Seq::<TXOutputV>::empty());
    }
    while i < n
        invariant
            i <= n,
            n == outs@.len(),
            s == views_of(outs@),
            sum_fits(s.take(i as int)),
            acc == sum_values(s.take(i as int)),
        decreases n - i,
    {
        proof {
            assert(s.take(i + 1 as int).drop_last() =~= s.take(i as int));
            assert(s.take(i + 1 as int).last() == s[i as int]);
            assert(s[i as int] == outs@[i as int]@);
        }
        let wide: i64 = outs[i].value as i64;
        if (wide >= 0 && acc > i64::MAX - wide) || (wide < 0 && acc < i64::MIN - wide) {
            proof {
                lemma_sum_fits_prefix(s, i + 1 as int);
            }
            return Err(Error::Overflow);
        }
        acc = acc + wide;
        i += 1;
    }
    proof {
        assert(s.take(n as int) =~= s);
    }
    Ok(acc)
}

/// A broken prefix of an entry scan breaks the whole scan.
proof fn lemma_greedy_outs_ok_prefix(
    acc: int,
    outs: Seq<IndexedOutputV>,
    owner: Seq<u8>,
    amount: int,
    j: int,
)
    requires
        0 <= j <= outs.len(),
        !greedy_outs(acc, outs.take(j), owner, amount).ok,
    ensures
        !greedy_outs(acc, outs, owner, amount).ok,
    decreases outs.len() - j,
{
    if j < outs.len() {
        assert(outs.take(j + 1).drop_last() =~= outs.take(j));
        lemma_greedy_outs_ok_prefix(acc, outs, owner, amount, j + 1);
    } else {
        assert(outs.take(j) =~= outs);
    }
}

/// A broken prefix of the index scan breaks the whole scan.
proof fn lemma_greedy_sel_ok_prefix(m: Seq<UtxoEntryV>, owner: Seq<u8>, amount: int, i: int)
    requires
        0 <= i <= m.len(),
        !greedy_sel(m.take(i), owner, amount).ok,
    ensures
        !greedy_sel(m, owner, amount).ok,
    decreases m.len() - i,
{
    if i < m.len() {
        assert(m.take(i + 1).drop_last() =~= m.take(i));
        lemma_greedy_sel_ok_prefix(m, owner, amount, i + 1);
    } else {
        assert(m.take(i) =~= m);
    }
}

/// A broken prefix breaks the whole sum's fit.
proof fn lemma_sum_fits_prefix(s: Seq<TXOutputV>, i: int)
    requires
        0 <= i <= s.len(),
        !sum_fits(s.take(i)),
    ensures
        !sum_fits(s),
    decreases s.len() - i,
{
    if i < s.len() {
        assert(s.take(i + 1).drop_last() =~= s.take(i));
        lemma_sum_fits_prefix(s, i + 1);
    } else {
        assert(s.take(i) =~= s);
    }
}

/// Sums split over concatenation.
pub proof fn lemma_sum_concat(a: Seq<TXOutputV>, b: Seq<TXOutputV>)
    ensures
        sum_values(a + b) == sum_values(a) + sum_values(b),
    decreases b.len(),
{
    if b.len() == 0 {
        assert(a + b =~= a);
    } else {
        lemma_sum_concat(a, b.drop_last());
        assert((a + b).drop_last() =~= a + b.drop_last());
        assert((a + b).last() == b.last());
    }
}

} // verus!
