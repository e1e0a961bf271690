//! Transactions: construction, identification, signing and verification.

use vstd::prelude::*;
use vstd::utf8::encode_utf8;

use crate::codec::{
    decode_list, decode_str, encode_list, encode_str, enc_list, enc_str, lemma_starts_at_concat,
    lemma_subrange_concat, starts_at, views_of, Wire,
};
use crate::errors::Error;
use crate::hashing::{
    ed25519_check, ed25519_keypair_of, ed25519_sig_of, ed25519_sign, ed25519_verify_ok,
    sha256_hex, sha256_hex_of,
};
use crate::tx::{TXInput, TXInputV, TXOutput, TXOutputV};

verus! {

/// The fixed block reward paid by a coinbase transaction.
pub const SUBSIDY: i32 = 100;

/// A transaction: an id over its unsigned content, inputs and outputs.
#[derive(Debug, Clone)]
pub struct Transaction {
    pub id: String,
    pub vin: Vec<TXInput>,
    pub vout: Vec<TXOutput>,
}

#[verifier::ext_equal]
pub ghost struct TransactionV {
    pub id: Seq<char>,
    pub vin: Seq<TXInputV>,
    pub vout: Seq<TXOutputV>,
}

impl View for Transaction {
    type V = TransactionV;

    open spec fn view(&self) -> TransactionV {
        TransactionV { id: self.id@, vin: views_of(self.vin@), vout: views_of(self.vout@) }
    }
}

impl Wire for Transaction {
    open spec fn enc_v(v: TransactionV) -> Seq<u8> {
        enc_str(v.id) + enc_list::<TXInput>(v.vin) + enc_list::<TXOutput>(v.vout)
    }

    proof fn enc_v_min_len(v: TransactionV) {
    }

    fn encode(&self, out: &mut Vec<u8>) {
        encode_str(out, self.id.as_str());
        encode_list::<TXInput>(out, &self.vin);
        encode_list::<TXOutput>(out, &self.vout);
        assert(out@ =~= old(out)@ + Self::enc_v(self@));
    }

    fn decode(data: &[u8], pos: usize) -> (r: Option<(Self, usize)>) {
        proof {
            assert forall|v: TransactionV| #[trigger]
                starts_at(data@, pos as int, Self::enc_v(v)) implies starts_at(
                data@,
                pos as int,
                enc_str(v.id),
            ) && starts_at(data@, pos + enc_str(v.id).len(), enc_list::<TXInput>(v.vin))
                && starts_at(
                data@,
                pos + enc_str(v.id).len() + enc_list::<TXInput>(v.vin).len(),
                enc_list::<TXOutput>(v.vout),
            ) by {
                lemma_starts_at_concat(
                    data@,
                    pos as int,
                    enc_str(v.id) + enc_list::<TXInput>(v.vin),
                    enc_list::<TXOutput>(v.vout),
                );
                lemma_starts_at_concat(
                    data@,
                    pos as int,
                    enc_str(v.id),
                    enc_list::<TXInput>(v.vin),
                );
            }
        }
        let (id, p1) = match decode_str(data, pos) {
            None => {
                return None;
            },
            Some(x) => x,
        };
        let (vin, p2) = match decode_list::<TXInput>(data, p1) {
            None => {
                return None;
            },
            Some(x) => x,
        };
        let (vout, p3) = match decode_list::<TXOutput>(data, p2) {
            None => {
                return None;
            },
            Some(x) => x,
        };
        let x = Transaction { id, vin, vout };
        proof {
            lemma_subrange_concat(data@, pos as int, p1 as int, p2 as int);
            lemma_subrange_concat(data@, pos as int, p2 as int, p3 as int);
            assert(data@.subrange(pos as int, p3 as int) == Self::enc_v(x@));
            assert forall|v: TransactionV| #[trigger]
                starts_at(data@, pos as int, Self::enc_v(v)) implies x@ =~= v && p3 as int == pos
                + Self::enc_v(v).len() by {}
        }
        Some((x, p3))
    }
}

/// The id a transaction earns from its content: the hex digest of its
/// encoding with an empty id field, before any signature is attached.
pub open spec fn txid_of(vin: Seq<TXInputV>, vout: Seq<TXOutputV>) -> Seq<char> {
    sha256_hex_of(
        <Transaction as Wire>::enc_v(TransactionV { id: Seq::empty(), vin, vout }),
    )
}

/// A coinbase transaction: one sentinel input with an empty referenced id
/// and index -1.
pub open spec fn is_coinbase_v(t: TransactionV) -> bool {
    t.vin.len() == 1 && t.vin[0].txid.len() == 0 && t.vin[0].vout == -1
}

/// The first transaction with the given id, searched front to back.
pub open spec fn find_prev(prevs: Seq<TransactionV>, id: Seq<char>) -> Option<TransactionV>
    decreases prevs.len(),
{
    if prevs.len() == 0 {
        None
    } else if prevs[0].id == id {
        Some(prevs[0])
    } else {
        find_prev(prevs.skip(1), id)
    }
}

/// An input can be signed or checked: its previous transaction is known,
/// carries an id, and has the referenced output.
pub open spec fn prev_ok(prevs: Seq<TransactionV>, vin: TXInputV) -> bool {
    match find_prev(prevs, vin.txid) {
        Some(p) => p.id.len() > 0 && 0 <= vin.vout && (vin.vout as int) < p.vout.len(),
        None => false,
    }
}

pub open spec fn sign_inputs_ok(t: TransactionV, prevs: Seq<TransactionV>) -> bool {
    forall|i: int| 0 <= i < t.vin.len() ==> prev_ok(prevs, #[trigger] t.vin[i])
}

/// The owner key hash of the output that an input references.
pub open spec fn prev_pkh(prevs: Seq<TransactionV>, vin: TXInputV) -> Seq<u8> {
    find_prev(prevs, vin.txid).unwrap().vout[vin.vout as int].pub_key_hash
}

/// The trimmed copy signed for input `i`: id cleared, every signature and
/// public key cleared, except that input `i` carries `pkh`, the owner key
/// hash of the output it references.
pub open spec fn trimmed_with(t: TransactionV, i: int, pkh: Seq<u8>) -> TransactionV {
    TransactionV {
        id: Seq::empty(),
        vin: t.vin.map(
            |j: int, v: TXInputV|
                TXInputV {
                    txid: v.txid,
                    vout: v.vout,
                    signature: Seq::empty(),
                    pub_key: if j == i {
                        pkh
                    } else {
                        Seq::empty()
                    },
                },
        ),
        vout: t.vout,
    }
}

pub open spec fn trimmed_for(t: TransactionV, prevs: Seq<TransactionV>, i: int) -> TransactionV {
    trimmed_with(t, i, prev_pkh(prevs, t.vin[i]))
}

/// The message signed for input `i`: the UTF-8 bytes of the hex digest of
/// the trimmed copy's encoding.
pub open spec fn signing_digest_bytes(
    t: TransactionV,
    prevs: Seq<TransactionV>,
    i: int,
) -> Seq<u8> {
    encode_utf8(sha256_hex_of(<Transaction as Wire>::enc_v(trimmed_for(t, prevs, i))))
}

/// The per-input digest reads only referenced ids, indexes and outputs, so
/// signing does not disturb it.
pub proof fn lemma_digest_stable(
    a: TransactionV,
    b: TransactionV,
    prevs: Seq<TransactionV>,
    i: int,
)
    requires
        a.vout == b.vout,
        a.vin.len() == b.vin.len(),
        0 <= i < a.vin.len(),
        forall|j: int|
            0 <= j < a.vin.len() ==> #[trigger] a.vin[j].txid == b.vin[j].txid && a.vin[j].vout
                == b.vin[j].vout,
    ensures
        signing_digest_bytes(a, prevs, i) == signing_digest_bytes(b, prevs, i),
{
    assert(prev_pkh(prevs, a.vin[i]) == prev_pkh(prevs, b.vin[i]));
    assert(trimmed_for(a, prevs, i).vin =~= trimmed_for(b, prevs, i).vin);
    assert(trimmed_for(a, prevs, i) =~= trimmed_for(b, prevs, i));
}

/// Every input's stored signature checks out against its declared public key
/// over the per-input digest; fails closed when a previous transaction is
/// missing or an index is out of range. A coinbase has nothing to check.
pub open spec fn verify_ok_v(t: TransactionV, prevs: Seq<TransactionV>) -> bool {
    is_coinbase_v(t) || forall|i: int|
        0 <= i < t.vin.len() ==> {
            let vin = #[trigger] t.vin[i];
            prev_ok(prevs, vin) && vin.pub_key.len() == 32 && vin.signature.len() == 64
                && ed25519_verify_ok(signing_digest_bytes(t, prevs, i), vin.pub_key, vin.signature)
        }
}

/// The transaction carries, on every input, a genuine signature of the
/// per-input digest under the keypair grown from a 32-byte `seed`.
pub open spec fn signed_with(t: TransactionV, prevs: Seq<TransactionV>, seed: Seq<u8>) -> bool {
    &&& seed.len() == 32
    &&& !is_coinbase_v(t)
    &&& sign_inputs_ok(t, prevs)
    &&& forall|i: int|
        0 <= i < t.vin.len() ==> {
            let vin = #[trigger] t.vin[i];
            vin.pub_key == ed25519_keypair_of(seed).1 && vin.pub_key.len() == 32 && vin.signature
                == ed25519_sig_of(signing_digest_bytes(t, prevs, i), ed25519_keypair_of(seed).0)
                && vin.signature.len() == 64
        }
}

/// Search a previous-transactions list by id, front to back.
fn find_prev_tx<'a>(prevs: &'a Vec<Transaction>, id: &String) -> (r: Option<&'a Transaction>)
    ensures
        match r {
            Some(t) => find_prev(views_of(prevs@), id@) == Some(t@),
            None => find_prev(views_of(prevs@), id@) is None,
        },
{
    let n = prevs.len();
    let mut i: usize = 0;
    proof {
        assert(views_of(prevs@).skip(0) =~= views_of(prevs@));
    }
    while i < n
        invariant
            i <= n,
            n == prevs@.len(),
            find_prev(views_of(prevs@), id@) == find_prev(views_of(prevs@).skip(i as int), id@),
        decreases n - i,
    {
        let ghost s = views_of(prevs@);
        if prevs[i].id == *id {
            proof {
                assert(s.skip(i as int)[0] == s[i as int]);
            }
            return Some(&prevs[i]);
        }
        proof {
            assert(s.skip(i as int)[0] == s[i as int]);
            assert(s.skip(i as int).skip(1) =~= s.skip(i + 1));
        }
        i += 1;
    }
    proof {
        assert(views_of(prevs@).skip(n as int) =~= Seq::<TransactionV>::empty());
    }
    None
}

/// Copy a byte vector.
fn clone_bytes(v: &Vec<u8>) -> (r: Vec<u8>)
    ensures
        r@ == v@,
{
    let mut out: Vec<u8> = Vec::new();
    let n = v.len();
    let mut i: usize = 0;
    while i < n
        invariant
            i <= n,
            n == v@.len(),
            out@ == v@.take(i as int),
        decreases n - i,
    {
        out.push(v[i]);
        proof {
            assert(v@.take(i + 1 as int) =~= v@.take(i as int).push(v@[i as int]));
        }
        i += 1;
    }
    proof {
        assert(v@.take(n as int) =~= v@);
    }
    out
}

/// Copy an output list.
pub fn clone_outputs(v: &Vec<TXOutput>) -> (r: Vec<TXOutput>)
    ensures
        views_of(r@) == views_of(v@),
{
    let mut out: Vec<TXOutput> = Vec::new();
    let n = v.len();
    let mut i: usize = 0;
    while i < n
        invariant
            i <= n,
            n == v@.len(),
            views_of(out@) == views_of(v@).take(i as int),
        decreases n - i,
    {
        let o = TXOutput { value: v[i].value, pub_key_hash: clone_bytes(&v[i].pub_key_hash) };
        proof {
            assert(o@ == v@[i as int]@);
        }
        let ghost pre = out@;
        out.push(o);
        proof {
            assert(out@ == pre.push(o));
            assert(views_of(pre) == views_of(v@).take(i as int));
            assert(views_of(pre).len() == pre.len());
            assert(views_of(v@).take(i as int).len() == i);
            assert(pre.len() == i);
            assert(out@.len() == i + 1);
            assert(views_of(out@).len() == i + 1);
            assert(views_of(out@)[i as int] == o@);
            assert forall|j: int| 0 <= j < i + 1 implies views_of(out@)[j] == views_of(v@).take(
                i + 1 as int,
            )[j] by {
                assert(views_of(v@).take(i + 1 as int)[j] == views_of(v@)[j]);
                assert(views_of(v@)[j] == v@[j]@);
                if j < i {
                    assert(views_of(pre)[j] == views_of(v@).take(i as int)[j]);
                    assert(out@[j] == pre[j]);
                    assert(views_of(out@)[j] == out@[j]@);
                    assert(views_of(pre)[j] == pre[j]@);
                }
            }
            assert(views_of(out@) =~= views_of(v@).take(i + 1 as int));
        }
        i += 1;
    }
    proof {
        assert(views_of(v@).take(n as int) =~= views_of(v@));
    }
    out
}

/// Copy an input list.
pub fn clone_inputs(v: &Vec<TXInput>) -> (r: Vec<TXInput>)
    ensures
        views_of(r@) == views_of(v@),
{
    let mut out: Vec<TXInput> = Vec::new();
    let n = v.len();
    let mut i: usize = 0;
    while i < n
        invariant
            i <= n,
            n == v@.len(),
            views_of(out@) == views_of(v@).take(i as int),
        decreases n - i,
    {
        let inp = TXInput {
            txid: v[i].txid.clone(),
            vout: v[i].vout,
            signature: clone_bytes(&v[i].signature),
            pub_key: clone_bytes(&v[i].pub_key),
        };
        let ghost pre = out@;
        out.push(inp);
        proof {
            assert(views_of(pre) == views_of(v@).take(i as int));
            assert(views_of(pre).len() == pre.len());
            assert(views_of(v@).take(i as int).len() == i);
            assert(out@ == pre.push(inp));
            assert(views_of(out@)[i as int] == inp@);
            assert(inp@ =~= views_of(v@)[i as int]);
            assert forall|j: int| 0 <= j < i + 1 implies views_of(out@)[j] == views_of(v@).take(
                i + 1 as int,
            )[j] by {
                if j < i {
                    assert(out@[j] == pre[j]);
                    assert(views_of(out@)[j] == out@[j]@);
                    assert(views_of(pre)[j] == pre[j]@);
                }
            }
            assert(views_of(out@) =~= views_of(v@).take(i + 1 as int));
        }
        i += 1;
    }
    proof {
        assert(views_of(v@).take(n as int) =~= views_of(v@));
    }
    out
}

/// Copy a transaction.
pub fn clone_tx(t: &Transaction) -> (r: Transaction)
    ensures
        r@ == t@,
{
    let r = Transaction {
        id: t.id.clone(),
        vin: clone_inputs(&t.vin),
        vout: clone_outputs(&t.vout),
    };
    proof {
        assert(r@ =~= t@);
    }
    r
}

/// Copy a transaction list.
pub fn clone_txs(v: &Vec<Transaction>) -> (r: Vec<Transaction>)
    ensures
        views_of(r@) == views_of(v@),
{
    let mut out: Vec<Transaction> = Vec::new();
    let n = v.len();
    let mut i: usize = 0;
    while i < n
        invariant
            i <= n,
            n == v@.len(),
            views_of(out@) == views_of(v@).take(i as int),
        decreases n - i,
    {
        let t = clone_tx(&v[i]);
        let ghost pre = out@;
        out.push(t);
        proof {
            assert(views_of(pre) == views_of(v@).take(i as int));
            assert(views_of(pre).len() == pre.len());
            assert(views_of(v@).take(i as int).len() == i);
            assert(out@ == pre.push(t));
            assert(views_of(out@)[i as int] == t@);
            assert(t@ == views_of(v@)[i as int]);
            assert forall|j: int| 0 <= j < i + 1 implies views_of(out@)[j] == views_of(v@).take(
                i + 1 as int,
            )[j] by {
                if j < i {
                    assert(out@[j] == pre[j]);
                    assert(views_of(out@)[j] == out@[j]@);
                    assert(views_of(pre)[j] == pre[j]@);
                }
            }
            assert(views_of(out@) =~= views_of(v@).take(i + 1 as int));
        }
        i += 1;
    }
    proof {
        assert(views_of(v@).take(n as int) =~= views_of(v@));
    }
    out
}

impl Transaction {
    /// Recognize a coinbase by its shape.
    pub fn is_coinbase(&self) -> (r: bool)
        ensures
            r == is_coinbase_v(self@),
    {
        self.vin.len() == 1 && self.vin[0].txid.as_str().is_empty() && self.vin[0].vout == -1
    }

    /// The copy whose encoding is hashed for signing: id, signatures and
    /// public keys cleared.
    pub fn trim_copy(&self) -> (r: Transaction)
        ensures
            r@.id.len() == 0,
            r@.vout == self@.vout,
            r@.vin.len() == self@.vin.len(),
            forall|j: int|
                0 <= j < self@.vin.len() ==> #[trigger] r@.vin[j] == (TXInputV {
                    txid: self@.vin[j].txid,
                    vout: self@.vin[j].vout,
                    signature: Seq::<u8>::empty(),
                    pub_key: Seq::<u8>::empty(),
                }),
    {
        let mut vin: Vec<TXInput> = Vec::new();
        let n = self.vin.len();
        let mut i: usize = 0;
        while i < n
            invariant
                i <= n,
                n == self.vin@.len(),
                views_of(vin@).len() == i,
                forall|j: int|
                    0 <= j < i ==> #[trigger] views_of(vin@)[j] == (TXInputV {
                        txid: views_of(self.vin@)[j].txid,
                        vout: views_of(self.vin@)[j].vout,
                        signature: Seq::<u8>::empty(),
                        pub_key: Seq::<u8>::empty(),
                    }),
            decreases n - i,
        {
            let inp = TXInput {
                txid: self.vin[i].txid.clone(),
                vout: self.vin[i].vout,
                signature: Vec::new(),
                pub_key: Vec::new(),
            };
            let ghost pre = vin@;
            vin.push(inp);
            proof {
                assert(vin@ == pre.push(inp));
                assert(views_of(pre).len() == pre.len());
                assert(pre.len() == i);
                assert(vin@.len() == i + 1);
                assert(views_of(vin@).len() == i + 1);
                assert(vin@[i as int] == inp);
                assert(views_of(vin@)[i as int] == inp@);
                assert(inp@ == (TXInputV {
                    txid: views_of(self.vin@)[i as int].txid,
                    vout: views_of(self.vin@)[i as int].vout,
                    signature: Seq::<u8>::empty(),
                    pub_key: Seq::<u8>::empty(),
                }));
                assert forall|j: int| 0 <= j < i + 1 implies #[trigger] views_of(vin@)[j] == (
                TXInputV {
                    txid: views_of(self.vin@)[j].txid,
                    vout: views_of(self.vin@)[j].vout,
                    signature: Seq::<u8>::empty(),
                    pub_key: Seq::<u8>::empty(),
                }) by {
                    if j < i {
                        assert(vin@[j] == pre[j]);
                        assert(views_of(vin@)[j] == vin@[j]@);
                        assert(views_of(pre)[j] == pre[j]@);
                    } else {
                        assert(views_of(vin@)[j] == inp@);
                    }
                }
            }
            i += 1;
        }
        let vout = clone_outputs(&self.vout);
        Transaction { id: String::new(), vin, vout }
    }
}

impl Transaction {
    /// Set the id to the digest of the unsigned content, leaving inputs and
    /// outputs as they are.
    pub(crate) fn set_id(&mut self)
        ensures
            final(self)@.id == txid_of(old(self)@.vin, old(self)@.vout),
            final(self)@.vin == old(self)@.vin,
            final(self)@.vout == old(self)@.vout,
    {
        self.id = String::new();
        proof {
            assert(self@.id =~= Seq::<char>::empty());
            assert(self@ =~= (TransactionV {
                id: Seq::empty(),
                vin: old(self)@.vin,
                vout: old(self)@.vout,
            }));
        }
        let mut encoded: Vec<u8> = Vec::new();
        self.encode(&mut encoded);
        let id = sha256_hex(encoded.as_slice());
        proof {
            assert(encoded@ =~= <Transaction as Wire>::enc_v(self@));
        }
        self.id = id;
    }

    /// A coinbase paying the fixed reward to the owner key hash written in
    /// `to`; `data` is the memo, defaulted when empty. The id is the digest
    /// of the content.
    pub fn new_coinbase(to: String, data: String) -> (r: Result<Transaction, Error>)
        ensures
            r matches Ok(t) ==> {
                &&& is_coinbase_v(t@)
                &&& t@.vin.len() == 1
                &&& t@.vin[0] == (TXInputV {
                    txid: Seq::<char>::empty(),
                    vout: -1i32,
                    signature: Seq::<u8>::empty(),
                    pub_key: encode_utf8(coinbase_memo(to@, data@)),
                })
                &&& t@.vout.len() == 1
                &&& t@.vout[0] == (TXOutputV {
                    value: SUBSIDY,
                    pub_key_hash: encode_utf8(to@),
                })
                &&& t@.id == txid_of(t@.vin, t@.vout)
            },
            r is Ok,
    {
        let memo: String = if data.as_str().is_empty() {
            let mut m = String::from_str("Reward to '");
            m.append(to.as_str());
            m.append("'");
            proof {
                assert(m@ == coinbase_memo(to@, data@));
            }
            m
        } else {
            data
        };
        let vin_entry = TXInput {
            txid: String::new(),
            vout: -1,
            signature: Vec::new(),
            pub_key: memo.as_str().as_bytes_vec(),
        };
        let vout_entry = TXOutput { value: SUBSIDY, pub_key_hash: to.as_str().as_bytes_vec() };
        let mut vin: Vec<TXInput> = Vec::new();
        vin.push(vin_entry);
        let mut vout: Vec<TXOutput> = Vec::new();
        vout.push(vout_entry);
        let mut tx = Transaction { id: String::new(), vin, vout };
        proof {
            assert(tx@.vin[0].txid =~= Seq::<char>::empty());
            assert(tx@.vin[0].signature =~= Seq::<u8>::empty());
        }
        tx.set_id();
        Ok(tx)
    }

    /// The trimmed copy for input `i`, carrying the owner key hash of output
    /// `vout_idx` of the referenced previous transaction.
    fn trimmed_for_input(&self, prev: &Transaction, vout_idx: usize, i: usize) -> (r: Transaction)
        requires
            i < self@.vin.len(),
            vout_idx < prev@.vout.len(),
        ensures
            r@ == trimmed_with(self@, i as int, prev@.vout[vout_idx as int].pub_key_hash),
    {
        let ghost pkh = prev@.vout[vout_idx as int].pub_key_hash;
        let ghost target = trimmed_with(self@, i as int, pkh);
        let mut vin: Vec<TXInput> = Vec::new();
        let n = self.vin.len();
        let mut j: usize = 0;
        while j < n
            invariant
                j <= n,
                n == self.vin@.len(),
                i < self.vin@.len(),
                vout_idx < prev@.vout.len(),
                pkh == prev@.vout[vout_idx as int].pub_key_hash,
                target == trimmed_with(self@, i as int, pkh),
                views_of(vin@).len() == j,
                forall|k: int| 0 <= k < j ==> #[trigger] views_of(vin@)[k] == target.vin[k],
            decreases n - j,
        {
            let pk: Vec<u8> = if j == i {
                clone_bytes(&prev.vout[vout_idx].pub_key_hash)
            } else {
                Vec::new()
            };
            let inp = TXInput {
                txid: self.vin[j].txid.clone(),
                vout: self.vin[j].vout,
                signature: Vec::new(),
                pub_key: pk,
            };
            let ghost pre = vin@;
            vin.push(inp);
            proof {
                assert(views_of(pre).len() == pre.len());
                assert(vin@ == pre.push(inp));
                assert(views_of(vin@)[j as int] == inp@);
                assert(views_of(self.vin@)[j as int] == self.vin@[j as int]@);
                assert(inp@ =~= target.vin[j as int]);
                assert forall|k: int| 0 <= k < j + 1 implies #[trigger] views_of(vin@)[k]
                    == target.vin[k] by {
                    if k < j {
                        assert(vin@[k] == pre[k]);
                        assert(views_of(vin@)[k] == vin@[k]@);
                        assert(views_of(pre)[k] == pre[k]@);
                    }
                }
            }
            j += 1;
        }
        let vout = clone_outputs(&self.vout);
        let r = Transaction { id: String::new(), vin, vout };
        proof {
            assert(r@.id =~= Seq::<char>::empty());
            assert(r@.vin =~= target.vin);
            assert(r@ =~= target);
        }
        r
    }

    /// The message bytes signed and checked for input `i`.
    fn input_digest(&self, prev: &Transaction, i: usize) -> (r: Vec<u8>)
        requires
            i < self@.vin.len(),
            0 <= self@.vin[i as int].vout,
            (self@.vin[i as int].vout as int) < prev@.vout.len(),
        ensures
            r@ == encode_utf8(
                sha256_hex_of(
                    <Transaction as Wire>::enc_v(
                        trimmed_with(
                            self@,
                            i as int,
                            prev@.vout[self@.vin[i as int].vout as int].pub_key_hash,
                        ),
                    ),
                ),
            ),
    {
        let vout_idx = self.vin[i].vout as usize;
        let trimmed = self.trimmed_for_input(prev, vout_idx, i);
        let mut encoded: Vec<u8> = Vec::new();
        trimmed.encode(&mut encoded);
        let digest = sha256_hex(encoded.as_slice());
        digest.as_str().as_bytes_vec()
    }
}

impl Transaction {
    /// Sign every input against its previous transaction, storing one
    /// independent signature per input over the per-input digest. A coinbase
    /// is left untouched. Fails, leaving the transaction unchanged, exactly
    /// when some input's previous transaction is missing, unidentified or
    /// lacks the referenced output.
    pub fn sign(&mut self, private_key: &[u8], prev_txs: &Vec<Transaction>) -> (r: Result<
        (),
        Error,
    >)
        requires
            private_key@.len() == 64,
        ensures
            is_coinbase_v(old(self)@) ==> r is Ok && *final(self) == *old(self),
            !is_coinbase_v(old(self)@) ==> (r is Ok <==> sign_inputs_ok(
                old(self)@,
                views_of(prev_txs@),
            )),
            r is Err ==> *final(self) == *old(self) && r == Err::<(), Error>(Error::Validation),
            !is_coinbase_v(old(self)@) && r is Ok ==> {
                let t = final(self)@;
                let prevs = views_of(prev_txs@);
                &&& t.id == old(self)@.id
                &&& t.vout == old(self)@.vout
                &&& t.vin.len() == old(self)@.vin.len()
                &&& forall|i: int|
                    0 <= i < t.vin.len() ==> #[trigger] t.vin[i].txid == old(self)@.vin[i].txid
                        && t.vin[i].vout == old(self)@.vin[i].vout && t.vin[i].pub_key == old(
                        self,
                    )@.vin[i].pub_key && t.vin[i].signature == ed25519_sig_of(
                        signing_digest_bytes(t, prevs, i),
                        private_key@,
                    ) && t.vin[i].signature.len() == 64
            },
    {
        if self.is_coinbase() {
            return Ok(());
        }
        let ghost prevs = views_of(prev_txs@);
        let n = self.vin.len();
        let mut i: usize = 0;
        while i < n
            invariant
                i <= n,
                n == self@.vin.len(),
                *self == *old(self),
                !is_coinbase_v(self@),
                forall|k: int| 0 <= k < i ==> prev_ok(prevs, #[trigger] self@.vin[k]),
                prevs == views_of(prev_txs@),
            decreases n - i,
        {
            match find_prev_tx(prev_txs, &self.vin[i].txid) {
                None => {
                    assert(!prev_ok(prevs, self@.vin[i as int]));
                    return Err(Error::Validation);
                },
                Some(p) => {
                    if p.id.as_str().is_empty() || self.vin[i].vout < 0 || self.vin[i].vout
                        as usize >= p.vout.len() {
                        assert(!prev_ok(prevs, self@.vin[i as int]));
                        return Err(Error::Validation);
                    }
                },
            }
            i += 1;
        }
        assert(sign_inputs_ok(self@, prevs));
        let ghost orig = self@;
        let mut new_vin: Vec<TXInput> = Vec::new();
        let mut i: usize = 0;
        while i < n
            invariant
                i <= n,
                n == self@.vin.len(),
                *self == *old(self),
                sign_inputs_ok(self@, prevs),
                orig == self@,
                prevs == views_of(prev_txs@),
                private_key@.len() == 64,
                views_of(new_vin@).len() == i,
                forall|k: int|
                    0 <= k < i ==> {
                        let v = #[trigger] views_of(new_vin@)[k];
                        v.txid == orig.vin[k].txid && v.vout == orig.vin[k].vout && v.pub_key
                            == orig.vin[k].pub_key && v.signature == ed25519_sig_of(
                            signing_digest_bytes(orig, prevs, k),
                            private_key@,
                        ) && v.signature.len() == 64
                    },
            decreases n - i,
        {
            let prev = match find_prev_tx(prev_txs, &self.vin[i].txid) {
                None => {
                    proof {
                        assert(prev_ok(prevs, self@.vin[i as int]));
                        assert(false);
                    }
                    return Err(Error::Validation);
                },
                Some(p) => p,
            };
            let msg = self.input_digest(prev, i);
            proof {
                assert(prev@ == find_prev(prevs, self@.vin[i as int].txid).unwrap());
                assert(msg@ == signing_digest_bytes(self@, prevs, i as int));
            }
            let sig = ed25519_sign(msg.as_slice(), private_key);
            let inp = TXInput {
                txid: self.vin[i].txid.clone(),
                vout: self.vin[i].vout,
                signature: sig,
                pub_key: clone_bytes(&self.vin[i].pub_key),
            };
            let ghost pre = new_vin@;
            new_vin.push(inp);
            proof {
                assert(views_of(pre).len() == pre.len());
                assert(new_vin@ == pre.push(inp));
                assert(views_of(new_vin@)[i as int] == inp@);
                assert(views_of(self.vin@)[i as int] == self.vin@[i as int]@);
                assert(inp@.txid == orig.vin[i as int].txid);
                assert(inp@.vout == orig.vin[i as int].vout);
                assert(inp@.pub_key == orig.vin[i as int].pub_key);
                assert(inp@.signature == ed25519_sig_of(
                    signing_digest_bytes(orig, prevs, i as int),
                    private_key@,
                ));
                assert forall|k: int| 0 <= k < i + 1 implies {
                    let v = #[trigger] views_of(new_vin@)[k];
                    v.txid == orig.vin[k].txid && v.vout == orig.vin[k].vout && v.pub_key
                        == orig.vin[k].pub_key && v.signature == ed25519_sig_of(
                        signing_digest_bytes(orig, prevs, k),
                        private_key@,
                    ) && v.signature.len() == 64
                } by {
                    if k < i {
                        assert(new_vin@[k] == pre[k]);
                        assert(views_of(new_vin@)[k] == new_vin@[k]@);
                        assert(views_of(pre)[k] == pre[k]@);
                    } else {
                        assert(views_of(new_vin@)[k] == inp@);
                    }
                }
            }
            i += 1;
        }
        self.vin = new_vin;
        proof {
            let t = self@;
            assert(t.vin.len() == orig.vin.len());
            assert forall|k: int| 0 <= k < t.vin.len() implies #[trigger] t.vin[k].signature
                == ed25519_sig_of(signing_digest_bytes(t, prevs, k), private_key@) by {
                lemma_digest_stable(orig, t, prevs, k);
            }
        }
        Ok(())
    }

    /// Check every input's stored signature against its declared public key
    /// over the per-input digest, failing closed on a missing previous
    /// transaction or an out-of-range reference. A correctly signed
    /// transaction always passes: when every input carries a genuine
    /// signature under the keypair of some seed, the result is true.
    pub fn verify(&self, prev_txs: &Vec<Transaction>) -> (r: bool)
        ensures
            r == verify_ok_v(self@, views_of(prev_txs@)),
            forall|seed: Seq<u8>|
                #[trigger] signed_with(self@, views_of(prev_txs@), seed) ==> r,
    {
        let ghost prevs = views_of(prev_txs@);
        if self.is_coinbase() {
            return true;
        }
        let n = self.vin.len();
        let mut i: usize = 0;
        while i < n
            invariant
                i <= n,
                n == self@.vin.len(),
                !is_coinbase_v(self@),
                prevs == views_of(prev_txs@),
                forall|k: int|
                    0 <= k < i ==> {
                        let vin = #[trigger] self@.vin[k];
                        prev_ok(prevs, vin) && vin.pub_key.len() == 32 && vin.signature.len() == 64
                            && ed25519_verify_ok(
                            signing_digest_bytes(self@, prevs, k),
                            vin.pub_key,
                            vin.signature,
                        )
                    },
            decreases n - i,
        {
            let ghost vin_k = self@.vin[i as int];
            let prev = match find_prev_tx(prev_txs, &self.vin[i].txid) {
                None => {
                    proof {
                        assert(!prev_ok(prevs, vin_k));
                        assert(!verify_ok_v(self@, prevs));
                        assert forall|seed: Seq<u8>| !(#[trigger] signed_with(
                            self@,
                            prevs,
                            seed,
                        )) by {}
                    }
                    return false;
                },
                Some(p) => p,
            };
            if prev.id.as_str().is_empty() || self.vin[i].vout < 0 || self.vin[i].vout as usize
                >= prev.vout.len() {
                proof {
                    assert(!prev_ok(prevs, vin_k));
                    assert(!verify_ok_v(self@, prevs));
                    assert forall|seed: Seq<u8>| !(#[trigger] signed_with(self@, prevs, seed)) by {}
                }
                return false;
            }
            if self.vin[i].pub_key.len() != 32 || self.vin[i].signature.len() != 64 {
                proof {
                    assert(!verify_ok_v(self@, prevs));
                    assert forall|seed: Seq<u8>| !(#[trigger] signed_with(self@, prevs, seed)) by {}
                }
                return false;
            }
            let msg = self.input_digest(prev, i);
            proof {
                assert(prev@ == find_prev(prevs, vin_k.txid).unwrap());
                assert(msg@ == signing_digest_bytes(self@, prevs, i as int));
            }
            let ok = ed25519_check(
                msg.as_slice(),
                self.vin[i].pub_key.as_slice(),
                self.vin[i].signature.as_slice(),
            );
            if !ok {
                proof {
                    assert(!verify_ok_v(self@, prevs));
                    assert forall|seed: Seq<u8>| !(#[trigger] signed_with(self@, prevs, seed)) by {}
                }
                return false;
            }
            i += 1;
        }
        true
    }
}

/// The memo a coinbase carries: the caller's text, or a default naming the
/// rewarded address when the text is empty.
pub open spec fn coinbase_memo(to: Seq<char>, data: Seq<char>) -> Seq<char> {
    if data.len() == 0 {
        "Reward to '"@ + to + "'"@
    } else {
        data
    }
}

} // verus!
