//! The synchronization protocol: message envelope codec and the node's
//! state machine. Handlers turn one received message into state changes and
//! a batch of outbound messages; the network I/O around them lives outside
//! the library.

use vstd::prelude::*;
use vstd::utf8::encode_utf8;

use crate::block::{clone_block, Block, BlockV};
use crate::codec::{
    decode_i32, decode_list, decode_str, encode_i32, encode_list, encode_str, enc_i32, enc_list,
    enc_str, lemma_starts_at_concat, lemma_starts_at_from_subrange, lemma_subrange_concat,
    starts_at, views_of, Wire,
};
use crate::errors::Error;
use crate::transaction::{clone_tx, clone_txs, Transaction, TransactionV};
use crate::tx::bytes_eq;
use crate::utxoset::{utxo_of_chain, UTXOSet};

verus! {

/// The width of the command tag that opens every message.
pub const CMD_LEN: usize = 12;

/// The protocol version advertised in handshakes.
pub const VERSION: i32 = 1;

/// The bootstrap peer every node knows at birth.
pub const KNOWN_NODE1: &'static str = "localhost:3000";

#[derive(Debug, Clone)]
pub struct Blockmsg {
    pub addr_from: String,
    pub block: Block,
}

#[derive(Debug, Clone)]
pub struct GetBlockmsg {
    pub addr_from: String,
}

#[derive(Debug, Clone)]
pub struct GetDatamsg {
    pub addr_from: String,
    pub kind: String,
    pub id: String,
}

#[derive(Debug, Clone)]
pub struct Invmsg {
    pub addr_from: String,
    pub kind: String,
    pub items: Vec<String>,
}

#[derive(Debug, Clone)]
pub struct Txmsg {
    pub addr_from: String,
    pub transaction: Transaction,
}

#[derive(Debug, Clone)]
pub struct Versionmsg {
    pub addr_from: String,
    pub version: i32,
    pub best_height: i32,
}

/// A message of the protocol, one variant per command tag.
#[derive(Debug, Clone)]
pub enum Message {
    Addr(Vec<String>),
    Version(Versionmsg),
    Tx(Txmsg),
    GetData(GetDatamsg),
    GetBlock(GetBlockmsg),
    Inv(Invmsg),
    Block(Blockmsg),
}

#[verifier::ext_equal]
pub ghost struct BlockmsgV {
    pub addr_from: Seq<char>,
    pub block: BlockV,
}

#[verifier::ext_equal]
pub ghost struct GetBlockmsgV {
    pub addr_from: Seq<char>,
}

#[verifier::ext_equal]
pub ghost struct GetDatamsgV {
    pub addr_from: Seq<char>,
    pub kind: Seq<char>,
    pub id: Seq<char>,
}

#[verifier::ext_equal]
pub ghost struct InvmsgV {
    pub addr_from: Seq<char>,
    pub kind: Seq<char>,
    pub items: Seq<Seq<char>>,
}

#[verifier::ext_equal]
pub ghost struct TxmsgV {
    pub addr_from: Seq<char>,
    pub transaction: TransactionV,
}

#[verifier::ext_equal]
pub ghost struct VersionmsgV {
    pub addr_from: Seq<char>,
    pub version: i32,
    pub best_height: i32,
}

#[verifier::ext_equal]
pub ghost enum MessageV {
    Addr(Seq<Seq<char>>),
    Version(VersionmsgV),
    Tx(TxmsgV),
    GetData(GetDatamsgV),
    GetBlock(GetBlockmsgV),
    Inv(InvmsgV),
    Block(BlockmsgV),
}

impl View for Blockmsg {
    type V = BlockmsgV;

    open spec fn view(&self) -> BlockmsgV {
        BlockmsgV { addr_from: self.addr_from@, block: self.block@ }
    }
}

impl View for GetBlockmsg {
    type V = GetBlockmsgV;

    open spec fn view(&self) -> GetBlockmsgV {
        GetBlockmsgV { addr_from: self.addr_from@ }
    }
}

impl View for GetDatamsg {
    type V = GetDatamsgV;

    open spec fn view(&self) -> GetDatamsgV {
        GetDatamsgV { addr_from: self.addr_from@, kind: self.kind@, id: self.id@ }
    }
}

impl View for Invmsg {
    type V = InvmsgV;

    open spec fn view(&self) -> InvmsgV {
        InvmsgV { addr_from: self.addr_from@, kind: self.kind@, items: views_of(self.items@) }
    }
}

impl View for Txmsg {
    type V = TxmsgV;

    open spec fn view(&self) -> TxmsgV {
        TxmsgV { addr_from: self.addr_from@, transaction: self.transaction@ }
    }
}

impl View for Versionmsg {
    type V = VersionmsgV;

    open spec fn view(&self) -> VersionmsgV {
        VersionmsgV {
            addr_from: self.addr_from@,
            version: self.version,
            best_height: self.best_height,
        }
    }
}

impl View for Message {
    type V = MessageV;

    open spec fn view(&self) -> MessageV {
        match self {
            Message::Addr(v) => MessageV::Addr(views_of(v@)),
            Message::Version(m) => MessageV::Version(m@),
            Message::Tx(m) => MessageV::Tx(m@),
            Message::GetData(m) => MessageV::GetData(m@),
            Message::GetBlock(m) => MessageV::GetBlock(m@),
            Message::Inv(m) => MessageV::Inv(m@),
            Message::Block(m) => MessageV::Block(m@),
        }
    }
}

/// Wire helper: a string list is a value with a wire format.
impl Wire for String {
    open spec fn enc_v(v: Seq<char>) -> Seq<u8> {
        enc_str(v)
    }

    proof fn enc_v_min_len(v: Seq<char>) {
    }

    fn encode(&self, out: &mut Vec<u8>) {
        encode_str(out, self.as_str());
    }

    fn decode(data: &[u8], pos: usize) -> (r: Option<(Self, usize)>) {
        decode_str(data, pos)
    }
}

/// The payload encoding of each message.
pub open spec fn enc_payload(m: MessageV) -> Seq<u8> {
    match m {
        MessageV::Addr(v) => enc_list::<String>(v),
        MessageV::Version(x) => enc_str(x.addr_from) + enc_i32(x.version) + enc_i32(x.best_height),
        MessageV::Tx(x) => enc_str(x.addr_from) + <Transaction as Wire>::enc_v(x.transaction),
        MessageV::GetData(x) => enc_str(x.addr_from) + enc_str(x.kind) + enc_str(x.id),
        MessageV::GetBlock(x) => enc_str(x.addr_from),
        MessageV::Inv(x) => enc_str(x.addr_from) + enc_str(x.kind) + enc_list::<String>(x.items),
        MessageV::Block(x) => enc_str(x.addr_from) + <Block as Wire>::enc_v(x.block),
    }
}

/// The command tag of each message, before padding.
pub open spec fn tag_of(m: MessageV) -> Seq<u8> {
    match m {
        MessageV::Addr(_) => seq![97u8, 100u8, 100u8, 114u8],
        MessageV::Version(_) => seq![118u8, 101u8, 114u8, 115u8, 105u8, 111u8, 110u8],
        MessageV::Tx(_) => seq![116u8, 120u8],
        MessageV::GetData(_) => seq![103u8, 101u8, 116u8, 100u8, 97u8, 116u8, 97u8],
        MessageV::GetBlock(_) => seq![
            103u8,
            101u8,
            116u8,
            98u8,
            108u8,
            111u8,
            99u8,
            107u8,
            115u8,
        ],
        MessageV::Inv(_) => seq![105u8, 110u8, 118u8],
        MessageV::Block(_) => seq![98u8, 108u8, 111u8, 99u8, 107u8],
    }
}

/// A tag padded with zero bytes to the fixed width.
pub open spec fn pad12(s: Seq<u8>) -> Seq<u8> {
    s + Seq::new((12 - s.len()) as nat, |i: int| 0u8)
}

/// A whole message on the wire: the padded tag, then the payload.
pub open spec fn enc_message(m: MessageV) -> Seq<u8> {
    pad12(tag_of(m)) + enc_payload(m)
}

/// A fixed-width command tag: the command's bytes padded with zeros.
pub fn cmd_to_bytes(cmd: &str) -> (r: Vec<u8>)
    requires
        encode_utf8(cmd@).len() <= 12,
    ensures
        r@ == pad12(encode_utf8(cmd@)),
{
    let mut r = cmd.as_bytes_vec();
    while r.len() < CMD_LEN
        invariant
            encode_utf8(cmd@).len() <= r@.len() <= 12,
            r@.subrange(0, encode_utf8(cmd@).len() as int) == encode_utf8(cmd@),
            forall|k: int| encode_utf8(cmd@).len() <= k < r@.len() ==> r@[k] == 0u8,
        decreases 12 - r@.len(),
    {
        r.push(0u8);
    }
    proof {
        assert(r@ =~= pad12(encode_utf8(cmd@)));
    }
    r
}

/// Append a tag, zero-padded to the fixed width.
fn emit_tag(out: &mut Vec<u8>, tag: &Vec<u8>)
    requires
        tag@.len() <= 12,
    ensures
        final(out)@ == old(out)@ + pad12(tag@),
{
    out.extend_from_slice(tag.as_slice());
    let mut k = tag.len();
    while k < CMD_LEN
        invariant
            tag@.len() <= k <= 12,
            out@.len() == old(out)@.len() + k,
            out@.subrange(0, old(out)@.len() + tag@.len() as int) == old(out)@ + tag@,
            forall|q: int| old(out)@.len() + tag@.len() <= q < out@.len() ==> out@[q] == 0u8,
        decreases 12 - k,
    {
        out.push(0u8);
        k += 1;
    }
    proof {
        assert(out@.len() == old(out)@.len() + 12);
        assert forall|q: int| 0 <= q < out@.len() implies out@[q] == (old(out)@ + pad12(tag@))[q] by {
            if q < old(out)@.len() + tag@.len() as int {
                assert(out@[q] == out@.subrange(0, old(out)@.len() + tag@.len() as int)[q]);
            }
        }
        assert(out@ =~= old(out)@ + pad12(tag@));
    }
}

/// Encode a message for the wire: the padded command tag, then the payload.
#[verifier::rlimit(100)]
pub fn message_to_bytes(msg: &Message) -> (r: Vec<u8>)
    ensures
        r@ == enc_message(msg@),
{
    let mut out: Vec<u8> = Vec::new();
    match msg {
        Message::Addr(v) => {
            let tag: Vec<u8> = vec![97u8, 100u8, 100u8, 114u8];
            emit_tag(&mut out, &tag);
            encode_list::<String>(&mut out, v);
        },
        Message::Version(x) => {
            let tag: Vec<u8> = vec![118u8, 101u8, 114u8, 115u8, 105u8, 111u8, 110u8];
            emit_tag(&mut out, &tag);
            encode_str(&mut out, x.addr_from.as_str());
            encode_i32(&mut out, x.version);
            encode_i32(&mut out, x.best_height);
        },
        Message::Tx(x) => {
            let tag: Vec<u8> = vec![116u8, 120u8];
            emit_tag(&mut out, &tag);
            encode_str(&mut out, x.addr_from.as_str());
            x.transaction.encode(&mut out);
        },
        Message::GetData(x) => {
            let tag: Vec<u8> = vec![103u8, 101u8, 116u8, 100u8, 97u8, 116u8, 97u8];
            emit_tag(&mut out, &tag);
            encode_str(&mut out, x.addr_from.as_str());
            encode_str(&mut out, x.kind.as_str());
            encode_str(&mut out, x.id.as_str());
        },
        Message::GetBlock(x) => {
            let tag: Vec<u8> = vec![103u8, 101u8, 116u8, 98u8, 108u8, 111u8, 99u8, 107u8, 115u8];
            emit_tag(&mut out, &tag);
            encode_str(&mut out, x.addr_from.as_str());
        },
        Message::Inv(x) => {
            let tag: Vec<u8> = vec![105u8, 110u8, 118u8];
            emit_tag(&mut out, &tag);
            encode_str(&mut out, x.addr_from.as_str());
            encode_str(&mut out, x.kind.as_str());
            encode_list::<String>(&mut out, &x.items);
        },
        Message::Block(x) => {
            let tag: Vec<u8> = vec![98u8, 108u8, 111u8, 99u8, 107u8];
            emit_tag(&mut out, &tag);
            encode_str(&mut out, x.addr_from.as_str());
            x.block.encode(&mut out);
        },
    }
    proof {
        assert(out@ =~= enc_message(msg@));
    }
    out
}

/// The nonzero bytes of a tag field, in order.
pub open spec fn nonzeros(s: Seq<u8>) -> Seq<u8>
    decreases s.len(),
{
    if s.len() == 0 {
        Seq::empty()
    } else {
        nonzeros(s.drop_last()) + (if s.last() == 0u8 {
            Seq::empty()
        } else {
            seq![s.last()]
        })
    }
}

/// Stripping the zero padding of a zero-free tag yields the tag.
proof fn lemma_nonzeros_pad(t: Seq<u8>)
    requires
        t.len() <= 12,
        forall|k: int| 0 <= k < t.len() ==> t[k] != 0u8,
    ensures
        nonzeros(pad12(t)) == t,
{
    lemma_nonzeros_zeros(t, (12 - t.len()) as nat);
    lemma_nonzeros_id(t);
}

proof fn lemma_nonzeros_zeros(t: Seq<u8>, n: nat)
    ensures
        nonzeros(t + Seq::new(n, |i: int| 0u8)) == nonzeros(t),
    decreases n,
{
    if n == 0 {
        assert(t + Seq::new(0, |i: int| 0u8) =~= t);
    } else {
        let s = t + Seq::new(n, |i: int| 0u8);
        assert(s.last() == 0u8);
        assert(s.drop_last() =~= t + Seq::new((n - 1) as nat, |i: int| 0u8));
        lemma_nonzeros_zeros(t, (n - 1) as nat);
        assert(nonzeros(s) =~= nonzeros(t));
    }
}

proof fn lemma_nonzeros_id(t: Seq<u8>)
    requires
        forall|k: int| 0 <= k < t.len() ==> t[k] != 0u8,
    ensures
        nonzeros(t) == t,
    decreases t.len(),
{
    if t.len() > 0 {
        lemma_nonzeros_id(t.drop_last());
        assert(nonzeros(t) =~= t);
    }
}

/// A zero-stripped tag names one of the seven commands.
pub open spec fn known_tag(t: Seq<u8>) -> bool {
    ||| t == seq![97u8, 100u8, 100u8, 114u8]
    ||| t == seq![118u8, 101u8, 114u8, 115u8, 105u8, 111u8, 110u8]
    ||| t == seq![116u8, 120u8]
    ||| t == seq![103u8, 101u8, 116u8, 100u8, 97u8, 116u8, 97u8]
    ||| t == seq![103u8, 101u8, 116u8, 98u8, 108u8, 111u8, 99u8, 107u8, 115u8]
    ||| t == seq![105u8, 110u8, 118u8]
    ||| t == seq![98u8, 108u8, 111u8, 99u8, 107u8]
}

/// Decode a wire message. Whenever the bytes are the encoding of a message,
/// exactly that message comes back; whatever comes back was encoded there:
/// the zero-stripped tag is the message's and its payload follows. A tag
/// outside the protocol is an `UnknownCommand`, exactly; a known tag whose
/// payload does not decode is a `Serialization` error.
#[verifier::rlimit(100)]
pub fn bytes_to_cmd(bytes: &Vec<u8>) -> (r: Result<Message, Error>)
    ensures
        forall|mv: MessageV|
            bytes@ == enc_message(mv) ==> (r matches Ok(m) && m@ == mv),
        r matches Ok(m) ==> bytes@.len() >= 12 && nonzeros(bytes@.take(12)) == tag_of(m@)
            && starts_at(bytes@, 12, enc_payload(m@)),
        r == Err::<Message, Error>(Error::UnknownCommand) <==> (bytes@.len() >= 12 && !known_tag(
            nonzeros(bytes@.take(12)),
        )),
{
    let ghost dv = bytes@;
    proof {
        assert forall|mv: MessageV| dv == enc_message(mv) implies dv.len() >= 12 && dv.subrange(
            0,
            12,
        ) == pad12(tag_of(mv)) && starts_at(dv, 12, enc_payload(mv)) by {
            assert(pad12(tag_of(mv)).len() == 12);
            lemma_starts_at_concat(dv, 0, pad12(tag_of(mv)), enc_payload(mv));
            assert(dv.subrange(0, 12) =~= pad12(tag_of(mv)));
        }
    }
    if bytes.len() < CMD_LEN {
        return Err(Error::Serialization);
    }
    let mut cmd: Vec<u8> = Vec::new();
    let mut i: usize = 0;
    proof {
        assert(cmd@ =~= nonzeros(dv.take(0)));
    }
    while i < CMD_LEN
        invariant
            i <= 12,
            dv == bytes@,
            dv.len() >= 12,
            cmd@ == nonzeros(dv.take(i as int)),
        decreases 12 - i,
    {
        proof {
            assert(dv.take(i + 1 as int).drop_last() =~= dv.take(i as int));
            assert(dv.take(i + 1 as int).last() == dv[i as int]);
        }
        if bytes[i] != 0u8 {
            cmd.push(bytes[i]);
        }
        proof {
            assert(cmd@ =~= nonzeros(dv.take(i + 1 as int)));
        }
        i += 1;
    }
    proof {
        assert forall|mv: MessageV| dv == enc_message(mv) implies cmd@ == tag_of(mv) by {
            assert(dv.take(12) == dv.subrange(0, 12));
            lemma_nonzeros_pad(tag_of(mv));
        }
    }
    let t_addr: Vec<u8> = vec![97u8, 100u8, 100u8, 114u8];
    let t_version: Vec<u8> = vec![118u8, 101u8, 114u8, 115u8, 105u8, 111u8, 110u8];
    let t_tx: Vec<u8> = vec![116u8, 120u8];
    let t_getdata: Vec<u8> = vec![103u8, 101u8, 116u8, 100u8, 97u8, 116u8, 97u8];
    let t_getblocks: Vec<u8> = vec![103u8, 101u8, 116u8, 98u8, 108u8, 111u8, 99u8, 107u8, 115u8];
    let t_inv: Vec<u8> = vec![105u8, 110u8, 118u8];
    let t_block: Vec<u8> = vec![98u8, 108u8, 111u8, 99u8, 107u8];
    if bytes_eq(cmd.as_slice(), t_addr.as_slice()) {
        match decode_list::<String>(bytes.as_slice(), CMD_LEN) {
            Some((v, end)) => {
                let m = Message::Addr(v);
                proof {
                    assert forall|mv: MessageV| dv == enc_message(mv) implies m@ =~= mv by {}
                    lemma_starts_at_from_subrange(dv, 12, end as int, enc_payload(m@));
                }
                Ok(m)
            },
            None => Err(Error::Serialization),
        }
    } else if bytes_eq(cmd.as_slice(), t_version.as_slice()) {
        proof {
            assert forall|mv: MessageV| dv == enc_message(mv) implies mv is Version && starts_at(
                dv,
                12,
                enc_str(mv->Version_0.addr_from),
            ) && starts_at(
                dv,
                12 + enc_str(mv->Version_0.addr_from).len() as int,
                enc_i32(mv->Version_0.version),
            ) && starts_at(
                dv,
                12 + enc_str(mv->Version_0.addr_from).len() as int + 4,
                enc_i32(mv->Version_0.best_height),
            ) by {
                let x = mv->Version_0;
                lemma_starts_at_concat(
                    dv,
                    12,
                    enc_str(x.addr_from) + enc_i32(x.version),
                    enc_i32(x.best_height),
                );
                lemma_starts_at_concat(dv, 12, enc_str(x.addr_from), enc_i32(x.version));
            }
        }
        let (addr_from, p1) = match decode_str(bytes.as_slice(), CMD_LEN) {
            Some(x) => x,
            None => {
                return Err(Error::Serialization);
            },
        };
        let (version, p2) = match decode_i32(bytes.as_slice(), p1) {
            Some(x) => x,
            None => {
                return Err(Error::Serialization);
            },
        };
        let (best_height, p3) = match decode_i32(bytes.as_slice(), p2) {
            Some(x) => x,
            None => {
                return Err(Error::Serialization);
            },
        };
        let m = Message::Version(Versionmsg { addr_from, version, best_height });
        proof {
            assert forall|mv: MessageV| dv == enc_message(mv) implies m@ =~= mv by {}
            lemma_subrange_concat(dv, 12, p1 as int, p2 as int);
            lemma_subrange_concat(dv, 12, p2 as int, p3 as int);
            assert(dv.subrange(12, p3 as int) == enc_payload(m@));
            lemma_starts_at_from_subrange(dv, 12, p3 as int, enc_payload(m@));
        }
        Ok(m)
    } else if bytes_eq(cmd.as_slice(), t_tx.as_slice()) {
        proof {
            assert forall|mv: MessageV| dv == enc_message(mv) implies mv is Tx && starts_at(
                dv,
                12,
                enc_str(mv->Tx_0.addr_from),
            ) && starts_at(
                dv,
                12 + enc_str(mv->Tx_0.addr_from).len() as int,
                <Transaction as Wire>::enc_v(mv->Tx_0.transaction),
            ) by {
                let x = mv->Tx_0;
                lemma_starts_at_concat(
                    dv,
                    12,
                    enc_str(x.addr_from),
                    <Transaction as Wire>::enc_v(x.transaction),
                );
            }
        }
        let (addr_from, p1) = match decode_str(bytes.as_slice(), CMD_LEN) {
            Some(x) => x,
            None => {
                return Err(Error::Serialization);
            },
        };
        let (transaction, p2) = match Transaction::decode(bytes.as_slice(), p1) {
            Some(x) => x,
            None => {
                return Err(Error::Serialization);
            },
        };
        let m = Message::Tx(Txmsg { addr_from, transaction });
        proof {
            assert forall|mv: MessageV| dv == enc_message(mv) implies m@ =~= mv by {}
            lemma_subrange_concat(dv, 12, p1 as int, p2 as int);
            assert(dv.subrange(12, p2 as int) == enc_payload(m@));
            lemma_starts_at_from_subrange(dv, 12, p2 as int, enc_payload(m@));
        }
        Ok(m)
    } else if bytes_eq(cmd.as_slice(), t_getdata.as_slice()) {
        proof {
            assert forall|mv: MessageV| dv == enc_message(mv) implies mv is GetData && starts_at(
                dv,
                12,
                enc_str(mv->GetData_0.addr_from),
            ) && starts_at(
                dv,
                12 + enc_str(mv->GetData_0.addr_from).len() as int,
                enc_str(mv->GetData_0.kind),
            ) && starts_at(
                dv,
                12 + enc_str(mv->GetData_0.addr_from).len() as int + enc_str(mv->GetData_0.kind).len(),
                enc_str(mv->GetData_0.id),
            ) by {
                let x = mv->GetData_0;
                lemma_starts_at_concat(
                    dv,
                    12,
                    enc_str(x.addr_from) + enc_str(x.kind),
                    enc_str(x.id),
                );
                lemma_starts_at_concat(dv, 12, enc_str(x.addr_from), enc_str(x.kind));
            }
        }
        let (addr_from, p1) = match decode_str(bytes.as_slice(), CMD_LEN) {
            Some(x) => x,
            None => {
                return Err(Error::Serialization);
            },
        };
        let (kind, p2) = match decode_str(bytes.as_slice(), p1) {
            Some(x) => x,
            None => {
                return Err(Error::Serialization);
            },
        };
        let (id, p3) = match decode_str(bytes.as_slice(), p2) {
            Some(x) => x,
            None => {
                return Err(Error::Serialization);
            },
        };
        let m = Message::GetData(GetDatamsg { addr_from, kind, id });
        proof {
            assert forall|mv: MessageV| dv == enc_message(mv) implies m@ =~= mv by {}
            lemma_subrange_concat(dv, 12, p1 as int, p2 as int);
            lemma_subrange_concat(dv, 12, p2 as int, p3 as int);
            assert(dv.subrange(12, p3 as int) == enc_payload(m@));
            lemma_starts_at_from_subrange(dv, 12, p3 as int, enc_payload(m@));
        }
        Ok(m)
    } else if bytes_eq(cmd.as_slice(), t_getblocks.as_slice()) {
        let (addr_from, p1) = match decode_str(bytes.as_slice(), CMD_LEN) {
            Some(x) => x,
            None => {
                return Err(Error::Serialization);
            },
        };
        let m = Message::GetBlock(GetBlockmsg { addr_from });
        proof {
            assert forall|mv: MessageV| dv == enc_message(mv) implies m@ =~= mv by {}
            lemma_starts_at_from_subrange(dv, 12, p1 as int, enc_payload(m@));
        }
        Ok(m)
    } else if bytes_eq(cmd.as_slice(), t_inv.as_slice()) {
        proof {
            assert forall|mv: MessageV| dv == enc_message(mv) implies mv is Inv && starts_at(
                dv,
                12,
                enc_str(mv->Inv_0.addr_from),
            ) && starts_at(
                dv,
                12 + enc_str(mv->Inv_0.addr_from).len() as int,
                enc_str(mv->Inv_0.kind),
            ) && starts_at(
                dv,
                12 + enc_str(mv->Inv_0.addr_from).len() as int + enc_str(mv->Inv_0.kind).len(),
                enc_list::<String>(mv->Inv_0.items),
            ) by {
                let x = mv->Inv_0;
                lemma_starts_at_concat(
                    dv,
                    12,
                    enc_str(x.addr_from) + enc_str(x.kind),
                    enc_list::<String>(x.items),
                );
                lemma_starts_at_concat(dv, 12, enc_str(x.addr_from), enc_str(x.kind));
            }
        }
        let (addr_from, p1) = match decode_str(bytes.as_slice(), CMD_LEN) {
            Some(x) => x,
            None => {
                return Err(Error::Serialization);
            },
        };
        let (kind, p2) = match decode_str(bytes.as_slice(), p1) {
            Some(x) => x,
            None => {
                return Err(Error::Serialization);
            },
        };
        let (items, p3) = match decode_list::<String>(bytes.as_slice(), p2) {
            Some(x) => x,
            None => {
                return Err(Error::Serialization);
            },
        };
        let m = Message::Inv(Invmsg { addr_from, kind, items });
        proof {
            assert forall|mv: MessageV| dv == enc_message(mv) implies m@ =~= mv by {}
            lemma_subrange_concat(dv, 12, p1 as int, p2 as int);
            lemma_subrange_concat(dv, 12, p2 as int, p3 as int);
            assert(dv.subrange(12, p3 as int) == enc_payload(m@));
            lemma_starts_at_from_subrange(dv, 12, p3 as int, enc_payload(m@));
        }
        Ok(m)
    } else if bytes_eq(cmd.as_slice(), t_block.as_slice()) {
        proof {
            assert forall|mv: MessageV| dv == enc_message(mv) implies mv is Block && starts_at(
                dv,
                12,
                enc_str(mv->Block_0.addr_from),
            ) && starts_at(
                dv,
                12 + enc_str(mv->Block_0.addr_from).len() as int,
                <Block as Wire>::enc_v(mv->Block_0.block),
            ) by {
                let x = mv->Block_0;
                lemma_starts_at_concat(
                    dv,
                    12,
                    enc_str(x.addr_from),
                    <Block as Wire>::enc_v(x.block),
                );
            }
        }
        let (addr_from, p1) = match decode_str(bytes.as_slice(), CMD_LEN) {
            Some(x) => x,
            None => {
                return Err(Error::Serialization);
            },
        };
        let (block, p2) = match Block::decode(bytes.as_slice(), p1) {
            Some(x) => x,
            None => {
                return Err(Error::Serialization);
            },
        };
        let m = Message::Block(Blockmsg { addr_from, block });
        proof {
            assert forall|mv: MessageV| dv == enc_message(mv) implies m@ =~= mv by {}
            lemma_subrange_concat(dv, 12, p1 as int, p2 as int);
            assert(dv.subrange(12, p2 as int) == enc_payload(m@));
            lemma_starts_at_from_subrange(dv, 12, p2 as int, enc_payload(m@));
        }
        Ok(m)
    } else {
        proof {
            assert forall|mv: MessageV| dv != enc_message(mv) by {
                if dv == enc_message(mv) {
                    assert(cmd@ == tag_of(mv));
                }
            }
        }
        Err(Error::UnknownCommand)
    }
}

/// One outbound message: where to send it and what to send.
pub struct Outbound {
    pub addr: String,
    pub msg: Message,
}

#[verifier::ext_equal]
pub ghost struct OutboundV {
    pub addr: Seq<char>,
    pub msg: MessageV,
}

impl View for Outbound {
    type V = OutboundV;

    open spec fn view(&self) -> OutboundV {
        OutboundV { addr: self.addr@, msg: self.msg@ }
    }
}

/// Register an address, keeping the registry free of duplicates.
pub open spec fn insert_addr(s: Seq<Seq<char>>, a: Seq<char>) -> Seq<Seq<char>> {
    if s.contains(a) {
        s
    } else {
        s.push(a)
    }
}

/// Register a batch of addresses in order.
pub open spec fn insert_addrs(s: Seq<Seq<char>>, list: Seq<Seq<char>>) -> Seq<Seq<char>>
    decreases list.len(),
{
    if list.len() == 0 {
        s
    } else {
        insert_addr(insert_addrs(s, list.drop_last()), list.last())
    }
}

/// The mempool holds a transaction with this id.
pub open spec fn mempool_has(s: Seq<TransactionV>, id: Seq<char>) -> bool {
    exists|k: int| 0 <= k < s.len() && (#[trigger] s[k]).id == id
}

/// Stash a transaction in the mempool unless its id is already present.
pub open spec fn mempool_insert(s: Seq<TransactionV>, t: TransactionV) -> Seq<TransactionV> {
    if mempool_has(s, t.id) {
        s
    } else {
        s.push(t)
    }
}

/// The hashes the ledger advertises, tip to genesis.
pub open spec fn chain_hashes(c: Seq<BlockV>) -> Seq<Seq<char>> {
    Seq::new(c.len(), |i: int| crate::blockchain::iterated(c)[i].hash)
}

/// The shared node state guarded by one lock in a running server.
pub struct ServerInner {
    pub known_nodes: Vec<String>,
    pub utxo: UTXOSet,
    pub blocks_in_transit: Vec<String>,
    pub mempool: Vec<Transaction>,
    pub block_staging: Vec<Block>,
}

/// A synchronization node: its own address, an optional mining address, and
/// the shared state its handlers read and write.
pub struct Server {
    pub node_address: String,
    pub mining_address: String,
    pub inner: ServerInner,
}

/// A string list holds this string.
fn contains_addr(v: &Vec<String>, a: &String) -> (r: bool)
    ensures
        r == views_of(v@).contains(a@),
{
    let n = v.len();
    let mut i: usize = 0;
    while i < n
        invariant
            i <= n,
            n == v@.len(),
            forall|k: int| 0 <= k < i ==> views_of(v@)[k] != a@,
        decreases n - i,
    {
        if v[i] == *a {
            proof {
                assert(views_of(v@)[i as int] == a@);
            }
            return true;
        }
        proof {
            assert(views_of(v@)[i as int] == v@[i as int]@);
        }
        i += 1;
    }
    proof {
        if views_of(v@).contains(a@) {
            let k = choose|k: int| 0 <= k < views_of(v@).len() && views_of(v@)[k] == a@;
            assert(views_of(v@)[k] != a@);
        }
    }
    false
}

/// Copy a string list.
pub fn clone_strings(v: &Vec<String>) -> (r: Vec<String>)
    ensures
        views_of(r@) == views_of(v@),
{
    let mut out: Vec<String> = Vec::new();
    let n = v.len();
    let mut i: usize = 0;
    while i < n
        invariant
            i <= n,
            n == v@.len(),
            views_of(out@).len() == i,
            forall|k: int| 0 <= k < i ==> #[trigger] views_of(out@)[k] == views_of(v@)[k],
        decreases n - i,
    {
        let s = v[i].clone();
        let ghost pre = out@;
        out.push(s);
        proof {
            assert(views_of(pre).len() == pre.len());
            assert(out@ == pre.push(s));
            assert forall|k: int| 0 <= k < i + 1 implies #[trigger] views_of(out@)[k] == views_of(
                v@,
            )[k] by {
                if k < i {
                    assert(out@[k] == pre[k]);
                    assert(views_of(out@)[k] == out@[k]@);
                    assert(views_of(pre)[k] == pre[k]@);
                } else {
                    assert(views_of(out@)[k] == s@);
                    assert(views_of(v@)[k] == v@[k]@);
                }
            }
        }
        i += 1;
    }
    proof {
        assert(views_of(out@) =~= views_of(v@));
    }
    out
}

impl Server {
    /// A fresh node listening on a local port, knowing only the bootstrap
    /// peer, with an empty mempool and transit queue.
    pub fn new(port: &str, miner_address: &str, utxo: UTXOSet) -> (r: Result<Server, Error>)
        ensures
            r matches Ok(s) ==> {
                &&& s.node_address@ == "localhost:"@ + port@
                &&& s.mining_address@ == miner_address@
                &&& views_of(s.inner.known_nodes@) =~= seq![KNOWN_NODE1@]
                &&& s.inner.utxo == utxo
                &&& s.inner.blocks_in_transit@.len() == 0
                &&& s.inner.mempool@.len() == 0
                &&& s.inner.block_staging@.len() == 0
            },
            r is Ok,
    {
        let mut node_address = String::from_str("localhost:");
        node_address.append(port);
        let mut known_nodes: Vec<String> = Vec::new();
        known_nodes.push(String::from_str(KNOWN_NODE1));
        let s = Server {
            node_address,
            mining_address: miner_address.to_owned(),
            inner: ServerInner {
                known_nodes,
                utxo,
                blocks_in_transit: Vec::new(),
                mempool: Vec::new(),
                block_staging: Vec::new(),
            },
        };
        proof {
            assert(views_of(s.inner.known_nodes@) =~= seq![KNOWN_NODE1@]);
        }
        Ok(s)
    }

    /// The peers this node currently knows.
    pub fn get_known_nodes(&self) -> (r: Vec<String>)
        ensures
            views_of(r@) == views_of(self.inner.known_nodes@),
    {
        clone_strings(&self.inner.known_nodes)
    }

    /// Register one peer address.
    pub fn add_nodes(&mut self, addr: &String)
        ensures
            views_of(final(self).inner.known_nodes@) == insert_addr(
                views_of(old(self).inner.known_nodes@),
                addr@,
            ),
            final(self).inner.utxo == old(self).inner.utxo,
            final(self).inner.blocks_in_transit == old(self).inner.blocks_in_transit,
            final(self).inner.mempool == old(self).inner.mempool,
            final(self).inner.block_staging == old(self).inner.block_staging,
            final(self).node_address == old(self).node_address,
            final(self).mining_address == old(self).mining_address,
    {
        if !contains_addr(&self.inner.known_nodes, addr) {
            let ghost pre = self.inner.known_nodes@;
            self.inner.known_nodes.push(addr.clone());
            proof {
                assert(views_of(self.inner.known_nodes@) =~= views_of(pre).push(addr@));
            }
        }
    }

    /// Merge a batch of advertised addresses into the registry.
    pub fn handle_addr(&mut self, msg: Vec<String>)
        ensures
            views_of(final(self).inner.known_nodes@) == insert_addrs(
                views_of(old(self).inner.known_nodes@),
                views_of(msg@),
            ),
            final(self).inner.utxo == old(self).inner.utxo,
            final(self).inner.blocks_in_transit == old(self).inner.blocks_in_transit,
            final(self).inner.mempool == old(self).inner.mempool,
            final(self).node_address == old(self).node_address,
            final(self).mining_address == old(self).mining_address,
    {
        let ghost list = views_of(msg@);
        let n = msg.len();
        let mut i: usize = 0;
        proof {
            assert(list.take(0) =~= Seq::<Seq<char>>::empty());
        }
        while i < n
            invariant
                i <= n,
                n == msg@.len(),
                list == views_of(msg@),
                views_of(self.inner.known_nodes@) == insert_addrs(
                    views_of(old(self).inner.known_nodes@),
                    list.take(i as int),
                ),
                self.inner.utxo == old(self).inner.utxo,
                self.inner.blocks_in_transit == old(self).inner.blocks_in_transit,
                self.inner.mempool == old(self).inner.mempool,
                self.inner.block_staging == old(self).inner.block_staging,
                self.node_address == old(self).node_address,
                self.mining_address == old(self).mining_address,
            decreases n - i,
        {
            proof {
                assert(list.take(i + 1 as int).drop_last() =~= list.take(i as int));
                assert(list.take(i + 1 as int).last() == list[i as int]);
                assert(list[i as int] == msg@[i as int]@);
            }
            self.add_nodes(&msg[i]);
            i += 1;
        }
        proof {
            assert(list.take(n as int) =~= list);
        }
    }

    /// Answer a handshake: register the sender, and ask for its chain's hash
    /// list when it claims a better height than ours.
    pub fn handle_version(&mut self, msg: &Versionmsg) -> (r: Vec<Outbound>)
        requires
            old(self).inner.utxo.blockchain.wf(),
        ensures
            views_of(final(self).inner.known_nodes@) == insert_addr(
                views_of(old(self).inner.known_nodes@),
                msg@.addr_from,
            ),
            final(self).inner.utxo == old(self).inner.utxo,
            final(self).inner.blocks_in_transit == old(self).inner.blocks_in_transit,
            final(self).inner.mempool == old(self).inner.mempool,
            final(self).node_address == old(self).node_address,
            final(self).mining_address == old(self).mining_address,
            ({
                let mine = old(self).inner.utxo.blockchain@.len() - 1;
                if mine <= i32::MAX && msg@.best_height > mine {
                    r@.len() == 1 && r@[0]@ == (OutboundV {
                        addr: msg@.addr_from,
                        msg: MessageV::GetBlock(
                            GetBlockmsgV { addr_from: old(self).node_address@ },
                        ),
                    })
                } else {
                    r@.len() == 0
                }
            }),
    {
        let my_best = self.inner.utxo.blockchain.get_best_height();
        let mut out: Vec<Outbound> = Vec::new();
        if my_best <= i32::MAX as usize && msg.best_height > my_best as i32 {
            out.push(
                Outbound {
                    addr: msg.addr_from.clone(),
                    msg: Message::GetBlock(
                        GetBlockmsg { addr_from: self.node_address.clone() },
                    ),
                },
            );
        }
        self.add_nodes(&msg.addr_from);
        out
    }

    /// Answer a hash-list request: advertise every block hash, tip first.
    pub fn handle_get_blocks(&self, msg: &GetBlockmsg) -> (r: Outbound)
        requires
            self.inner.utxo.blockchain.wf(),
        ensures
            r@.addr == msg@.addr_from,
            r@.msg matches MessageV::Inv(x) && x.addr_from == self.node_address@ && x.kind
                == "block"@ && x.items =~= chain_hashes(self.inner.utxo.blockchain@),
    {
        let hashes = self.inner.utxo.blockchain.get_block_hashes();
        proof {
            assert(views_of(hashes@) =~= chain_hashes(self.inner.utxo.blockchain@)) by {
                assert forall|k: int| 0 <= k < hashes@.len() implies views_of(hashes@)[k]
                    == chain_hashes(self.inner.utxo.blockchain@)[k] by {
                    assert(views_of(hashes@)[k] == hashes@[k]@);
                }
            }
        }
        Outbound {
            addr: msg.addr_from.clone(),
            msg: Message::Inv(
                Invmsg {
                    addr_from: self.node_address.clone(),
                    kind: String::from_str("block"),
                    items: hashes,
                },
            ),
        }
    }

    /// Answer a data request: hand out the named block or pooled
    /// transaction; a miss is dropped silently.
    pub fn handle_get_data(&self, msg: &GetDatamsg) -> (r: Vec<Outbound>)
        ensures
            msg@.kind == "block"@ ==> match crate::blockchain::chain_find_block(
                self.inner.utxo.blockchain@,
                msg@.id,
            ) {
                Some(b) => r@.len() == 1 && r@[0]@ == (OutboundV {
                    addr: msg@.addr_from,
                    msg: MessageV::Block(
                        BlockmsgV { addr_from: self.node_address@, block: b },
                    ),
                }),
                None => r@.len() == 0,
            },
            msg@.kind == "tx"@ ==> match find_pool_tx(
                views_of(self.inner.mempool@),
                msg@.id,
            ) {
                Some(t) => r@.len() == 1 && r@[0]@ == (OutboundV {
                    addr: msg@.addr_from,
                    msg: MessageV::Tx(
                        TxmsgV { addr_from: self.node_address@, transaction: t },
                    ),
                }),
                None => r@.len() == 0,
            },
            msg@.kind != "block"@ && msg@.kind != "tx"@ ==> r@.len() == 0,
    {
        broadcast use vstd::string::group_string_axioms;

        proof {
            reveal_strlit("block");
            reveal_strlit("tx");
            assert("block"@.len() == 5);
            assert("tx"@.len() == 2);
        }
        let mut out: Vec<Outbound> = Vec::new();
        let block_kind = String::from_str("block");
        let tx_kind = String::from_str("tx");
        if msg.kind == block_kind {
            match self.inner.utxo.blockchain.get_block(&msg.id) {
                Some(b) => {
                    out.push(
                        Outbound {
                            addr: msg.addr_from.clone(),
                            msg: Message::Block(
                                Blockmsg { addr_from: self.node_address.clone(), block: b },
                            ),
                        },
                    );
                },
                None => {},
            }
        } else if msg.kind == tx_kind {
            match find_in_pool(&self.inner.mempool, &msg.id) {
                Some(t) => {
                    out.push(
                        Outbound {
                            addr: msg.addr_from.clone(),
                            msg: Message::Tx(
                                Txmsg { addr_from: self.node_address.clone(), transaction: t },
                            ),
                        },
                    );
                },
                None => {},
            }
        }
        out
    }

    /// Take an inventory: queue every advertised block hash but the first
    /// and fetch the first; fetch an advertised transaction unless pooled.
    pub fn handle_inv(&mut self, msg: &Invmsg) -> (r: Vec<Outbound>)
        ensures
            final(self).inner.utxo == old(self).inner.utxo,
            final(self).inner.known_nodes == old(self).inner.known_nodes,
            final(self).inner.mempool == old(self).inner.mempool,
            final(self).node_address == old(self).node_address,
            final(self).mining_address == old(self).mining_address,
            msg@.kind == "block"@ && msg@.items.len() > 0 ==> {
                &&& views_of(final(self).inner.blocks_in_transit@) =~= msg@.items.skip(1)
                &&& r@.len() == 1
                &&& r@[0]@ == (OutboundV {
                    addr: msg@.addr_from,
                    msg: MessageV::GetData(
                        GetDatamsgV {
                            addr_from: old(self).node_address@,
                            kind: "block"@,
                            id: msg@.items[0],
                        },
                    ),
                })
            },
            !(msg@.kind == "block"@ && msg@.items.len() > 0) ==> final(self).inner.blocks_in_transit
                == old(self).inner.blocks_in_transit,
            msg@.kind == "tx"@ && msg@.items.len() > 0 && !mempool_has(
                views_of(old(self).inner.mempool@),
                msg@.items[0],
            ) ==> r@.len() == 1 && r@[0]@ == (OutboundV {
                addr: msg@.addr_from,
                msg: MessageV::GetData(
                    GetDatamsgV {
                        addr_from: old(self).node_address@,
                        kind: "tx"@,
                        id: msg@.items[0],
                    },
                ),
            }),
    {
        broadcast use vstd::string::group_string_axioms;

        proof {
            reveal_strlit("block");
            reveal_strlit("tx");
            assert("block"@.len() == 5);
            assert("tx"@.len() == 2);
        }
        let mut out: Vec<Outbound> = Vec::new();
        let block_kind = String::from_str("block");
        let tx_kind = String::from_str("tx");
        if msg.kind == block_kind && msg.items.len() > 0 {
            let mut transit: Vec<String> = Vec::new();
            let n = msg.items.len();
            let mut i: usize = 1;
            proof {
                assert(views_of(transit@) =~= msg@.items.subrange(1, 1));
            }
            while i < n
                invariant
                    1 <= i <= n,
                    n == msg.items@.len(),
                    views_of(transit@) == msg@.items.subrange(1, i as int),
                decreases n - i,
            {
                let s = msg.items[i].clone();
                let ghost pre = transit@;
                transit.push(s);
                proof {
                    assert(views_of(pre).len() == pre.len());
                    assert(transit@ == pre.push(s));
                    assert(views_of(transit@)[pre.len() as int] == s@);
                    assert(s@ == msg@.items[i as int]);
                    assert forall|k: int| 0 <= k < pre.len() + 1 implies #[trigger] views_of(
                        transit@,
                    )[k] == msg@.items.subrange(1, i + 1 as int)[k] by {
                        if k < pre.len() {
                            assert(transit@[k] == pre[k]);
                            assert(views_of(transit@)[k] == transit@[k]@);
                            assert(views_of(pre)[k] == pre[k]@);
                        }
                    }
                    assert(views_of(transit@) =~= msg@.items.subrange(1, i + 1 as int));
                }
                i += 1;
            }
            self.inner.blocks_in_transit = transit;
            proof {
                assert(msg@.items.subrange(1, n as int) =~= msg@.items.skip(1));
            }
            out.push(
                Outbound {
                    addr: msg.addr_from.clone(),
                    msg: Message::GetData(
                        GetDatamsg {
                            addr_from: self.node_address.clone(),
                            kind: String::from_str("block"),
                            id: msg.items[0].clone(),
                        },
                    ),
                },
            );
        } else if msg.kind == tx_kind && msg.items.len() > 0 {
            proof {
                lemma_find_pool_none(views_of(self.inner.mempool@), msg@.items[0]);
            }
            if find_in_pool(&self.inner.mempool, &msg.items[0]).is_none() {
                out.push(
                    Outbound {
                        addr: msg.addr_from.clone(),
                        msg: Message::GetData(
                            GetDatamsg {
                                addr_from: self.node_address.clone(),
                                kind: String::from_str("tx"),
                                id: msg.items[0].clone(),
                            },
                        ),
                    },
                );
            }
        }
        out
    }
}

impl Server {
    /// Take a block from a peer: append it when it extends the tip, else
    /// stage it until its predecessor arrives, then drain whatever staged
    /// blocks now fit. While hashes are still in transit, fetch the next
    /// one; once the queue is empty, rebuild the UTXO index.
    pub fn handle_block(&mut self, msg: Blockmsg) -> (r: Vec<Outbound>)
        requires
            old(self).inner.utxo.blockchain.wf(),
        ensures
            final(self).inner.utxo.blockchain.wf(),
            old(self).inner.utxo.blockchain@.is_prefix_of(final(self).inner.utxo.blockchain@),
            final(self).inner.known_nodes == old(self).inner.known_nodes,
            final(self).inner.mempool == old(self).inner.mempool,
            final(self).node_address == old(self).node_address,
            final(self).mining_address == old(self).mining_address,
            old(self).inner.blocks_in_transit@.len() > 0 ==> {
                &&& views_of(final(self).inner.blocks_in_transit@) =~= views_of(
                    old(self).inner.blocks_in_transit@,
                ).skip(1)
                &&& r@.len() == 1
                &&& r@[0]@ == (OutboundV {
                    addr: msg@.addr_from,
                    msg: MessageV::GetData(
                        GetDatamsgV {
                            addr_from: old(self).node_address@,
                            kind: "block"@,
                            id: views_of(old(self).inner.blocks_in_transit@)[0],
                        },
                    ),
                })
            },
            old(self).inner.blocks_in_transit@.len() == 0 ==> r@.len() == 0
                && final(self).inner.utxo.index_spec() == utxo_of_chain(
                final(self).inner.utxo.blockchain@,
            ),
            ({
                let c = old(self).inner.utxo.blockchain@;
                let b = msg@.block;
                (c.len() < usize::MAX && b.prev_block_hash == c.last().hash && b.hash.len() > 0
                    && b.height as int == c.len() && (forall|i: int|
                    0 <= i < c.len() ==> (#[trigger] c[i]).hash != b.hash)) ==> c.push(
                    b,
                ).is_prefix_of(final(self).inner.utxo.blockchain@)
            }),
    {
        let ghost c0 = self.inner.utxo.blockchain@;
        let incoming = clone_block(&msg.block);
        match self.inner.utxo.blockchain.append_block(incoming) {
            Ok(()) => {
                // drain any staged blocks that now extend the tip; each round
                // appends at most one, so the initial staging size bounds it
                let ghost c1 = self.inner.utxo.blockchain@;
                proof {
                    assert(c1 == c0.push(msg@.block));
                    lemma_prefix_push(c0, old(self).inner.utxo.blockchain@, msg@.block);
                    assert(c1.is_prefix_of(c1)) by {
                        assert(c1.subrange(0, c1.len() as int) =~= c1);
                    }
                }
                let total = self.inner.block_staging.len();
                let mut round: usize = 0;
                while round < total
                    invariant
                        self.inner.utxo.blockchain.wf(),
                        c0.is_prefix_of(self.inner.utxo.blockchain@),
                        c1.is_prefix_of(self.inner.utxo.blockchain@),
                        self.inner.known_nodes == old(self).inner.known_nodes,
                        self.inner.mempool == old(self).inner.mempool,
                        self.inner.blocks_in_transit == old(self).inner.blocks_in_transit,
                        self.node_address == old(self).node_address,
                        self.mining_address == old(self).mining_address,
                    decreases total - round,
                {
                    let mut k: usize = 0;
                    let mut appended = false;
                    while k < self.inner.block_staging.len() && !appended
                        invariant
                            self.inner.utxo.blockchain.wf(),
                            c0.is_prefix_of(self.inner.utxo.blockchain@),
                            c1.is_prefix_of(self.inner.utxo.blockchain@),
                            self.inner.known_nodes == old(self).inner.known_nodes,
                            self.inner.mempool == old(self).inner.mempool,
                            self.inner.blocks_in_transit == old(self).inner.blocks_in_transit,
                            self.node_address == old(self).node_address,
                            self.mining_address == old(self).mining_address,
                        decreases self.inner.block_staging@.len() - k,
                    {
                        let candidate = clone_block(&self.inner.block_staging[k]);
                        let ghost cur = self.inner.utxo.blockchain@;
                        let ghost cv = candidate@;
                        match self.inner.utxo.blockchain.append_block(candidate) {
                            Ok(()) => {
                                proof {
                                    lemma_prefix_push(c0, cur, cv);
                                    lemma_prefix_push(c1, cur, cv);
                                }
                                self.inner.block_staging.remove(k);
                                appended = true;
                            },
                            Err(_) => {
                                k += 1;
                            },
                        }
                    }
                    if !appended {
                        break;
                    }
                    round += 1;
                }
            },
            Err(_) => {
                // the block does not extend the tip yet: keep it for later
                if self.inner.block_staging.len() < usize::MAX {
                    self.inner.block_staging.push(clone_block(&msg.block));
                }
            },
        }
        let mut out: Vec<Outbound> = Vec::new();
        if self.inner.blocks_in_transit.len() > 0 {
            let first = self.inner.blocks_in_transit[0].clone();
            proof {
                assert(views_of(old(self).inner.blocks_in_transit@)[0] == old(
                    self,
                ).inner.blocks_in_transit@[0]@);
            }
            out.push(
                Outbound {
                    addr: msg.addr_from,
                    msg: Message::GetData(
                        GetDatamsg {
                            addr_from: self.node_address.clone(),
                            kind: String::from_str("block"),
                            id: first,
                        },
                    ),
                },
            );
            let ghost pre = views_of(self.inner.blocks_in_transit@);
            self.inner.blocks_in_transit.remove(0);
            proof {
                assert forall|q: int|
                    0 <= q < views_of(self.inner.blocks_in_transit@).len() implies #[trigger] views_of(
                    self.inner.blocks_in_transit@,
                )[q] == pre.skip(1)[q] by {
                    assert(views_of(self.inner.blocks_in_transit@)[q]
                        == self.inner.blocks_in_transit@[q]@);
                }
                assert(views_of(self.inner.blocks_in_transit@) =~= pre.skip(1));
            }
        } else {
            self.inner.utxo.reindex();
        }
        out
    }

    /// Take a transaction from a peer: pool it under its id; a mining node
    /// then assembles the pool plus a fresh reward coinbase into a new
    /// block, folds it into the index, clears the pool and advertises the
    /// block to every known peer.
    pub fn handle_tx(&mut self, msg: Txmsg) -> (r: Result<Vec<Outbound>, Error>)
        requires
            old(self).inner.utxo.blockchain.wf(),
            old(self).inner.mempool@.len() < usize::MAX,
        ensures
            final(self).inner.utxo.blockchain.wf(),
            final(self).inner.known_nodes == old(self).inner.known_nodes,
            final(self).node_address == old(self).node_address,
            final(self).mining_address == old(self).mining_address,
            final(self).inner.blocks_in_transit == old(self).inner.blocks_in_transit,
            old(self).mining_address@.len() == 0 ==> (r matches Ok(out) && out@.len() == 0
                && views_of(final(self).inner.mempool@) == mempool_insert(
                views_of(old(self).inner.mempool@),
                msg@.transaction,
            ) && final(self).inner.utxo == old(self).inner.utxo),
            old(self).mining_address@.len() > 0 && r is Ok ==> ({
                let out = r->Ok_0;
                let mined = final(self).inner.utxo.blockchain@.last();
                &&& final(self).inner.mempool@.len() == 0
                &&& final(self).inner.utxo.blockchain@ == old(
                    self,
                ).inner.utxo.blockchain@.push(mined)
                &&& mined.transactions.len() == mempool_insert(
                    views_of(old(self).inner.mempool@),
                    msg@.transaction,
                ).len() + 1
                &&& final(self).inner.utxo.index_spec() == crate::utxoset::apply_block(
                    old(self).inner.utxo.index_spec(),
                    mined,
                )
                &&& out@.len() == old(self).inner.known_nodes@.len()
                &&& forall|k: int|
                    0 <= k < out@.len() ==> (#[trigger] out@[k])@ == (OutboundV {
                        addr: views_of(old(self).inner.known_nodes@)[k],
                        msg: MessageV::Inv(
                            InvmsgV {
                                addr_from: old(self).node_address@,
                                kind: "block"@,
                                items: seq![mined.hash],
                            },
                        ),
                    })
            }),
            r is Err ==> final(self).inner.utxo == old(self).inner.utxo && views_of(
                final(self).inner.mempool@,
            ) == mempool_insert(views_of(old(self).inner.mempool@), msg@.transaction),
    {
        let ghost pool0 = views_of(self.inner.mempool@);
        proof {
            lemma_find_pool_none(pool0, msg@.transaction.id);
        }
        if find_in_pool(&self.inner.mempool, &msg.transaction.id).is_none() {
            let ghost pre = self.inner.mempool@;
            self.inner.mempool.push(msg.transaction);
            proof {
                assert(views_of(self.inner.mempool@) =~= views_of(pre).push(
                    msg@.transaction,
                ));
            }
        }
        proof {
            assert(views_of(self.inner.mempool@) == mempool_insert(pool0, msg@.transaction));
        }
        if self.mining_address.as_str().is_empty() {
            return Ok(Vec::new());
        }
        let cbtx = match Transaction::new_coinbase(self.mining_address.clone(), String::new()) {
            Ok(t) => t,
            Err(e) => {
                proof {
                    assert(false);
                }
                return Err(e);
            },
        };
        let mut txs = clone_txs(&self.inner.mempool);
        txs.push(cbtx);
        let block = match self.inner.utxo.blockchain.add_block(txs) {
            Ok(b) => b,
            Err(e) => {
                return Err(e);
            },
        };
        self.inner.utxo.update(&block);
        self.inner.mempool = Vec::new();
        let mut out: Vec<Outbound> = Vec::new();
        let nodes = &self.inner.known_nodes;
        let n = nodes.len();
        let mut i: usize = 0;
        let ghost mined = block@;
        while i < n
            invariant
                i <= n,
                n == self.inner.known_nodes@.len(),
                self.inner.known_nodes == old(self).inner.known_nodes,
                self.node_address == old(self).node_address,
                mined == block@,
                block@.hash == mined.hash,
                out@.len() == i,
                forall|k: int|
                    0 <= k < i ==> (#[trigger] out@[k])@ == (OutboundV {
                        addr: views_of(old(self).inner.known_nodes@)[k],
                        msg: MessageV::Inv(
                            InvmsgV {
                                addr_from: old(self).node_address@,
                                kind: "block"@,
                                items: seq![mined.hash],
                            },
                        ),
                    }),
            decreases n - i,
        {
            let mut items: Vec<String> = Vec::new();
            items.push(block.get_hash());
            proof {
                assert(views_of(items@) =~= seq![mined.hash]);
                assert(views_of(self.inner.known_nodes@)[i as int]
                    == self.inner.known_nodes@[i as int]@);
            }
            let o = Outbound {
                addr: self.inner.known_nodes[i].clone(),
                msg: Message::Inv(
                    Invmsg {
                        addr_from: self.node_address.clone(),
                        kind: String::from_str("block"),
                        items,
                    },
                ),
            };
            out.push(o);
            i += 1;
        }
        Ok(out)
    }
}

impl Server {
    /// A hash-list request addressed to a peer.
    pub fn send_get_blocks(&self, addr: &String) -> (r: Outbound)
        ensures
            r@ == (OutboundV {
                addr: addr@,
                msg: MessageV::GetBlock(GetBlockmsgV { addr_from: self.node_address@ }),
            }),
    {
        Outbound {
            addr: addr.clone(),
            msg: Message::GetBlock(GetBlockmsg { addr_from: self.node_address.clone() }),
        }
    }

    /// A data request addressed to a peer.
    pub fn send_get_data(&self, addr: &String, kind: &str, id: &String) -> (r: Outbound)
        ensures
            r@ == (OutboundV {
                addr: addr@,
                msg: MessageV::GetData(
                    GetDatamsgV { addr_from: self.node_address@, kind: kind@, id: id@ },
                ),
            }),
    {
        Outbound {
            addr: addr.clone(),
            msg: Message::GetData(
                GetDatamsg {
                    addr_from: self.node_address.clone(),
                    kind: kind.to_owned(),
                    id: id.clone(),
                },
            ),
        }
    }

    /// A handshake advertising our best height.
    pub fn send_version(&self, addr: &String) -> (r: Result<Outbound, Error>)
        requires
            self.inner.utxo.blockchain.wf(),
        ensures
            self.inner.utxo.blockchain@.len() - 1 <= i32::MAX ==> (r matches Ok(o) && o@ == (
            OutboundV {
                addr: addr@,
                msg: MessageV::Version(
                    VersionmsgV {
                        addr_from: self.node_address@,
                        version: VERSION,
                        best_height: (self.inner.utxo.blockchain@.len() - 1) as i32,
                    },
                ),
            })),
            self.inner.utxo.blockchain@.len() - 1 > i32::MAX ==> r == Err::<Outbound, Error>(
                Error::Overflow,
            ),
    {
        let h = self.inner.utxo.blockchain.get_best_height();
        if h > i32::MAX as usize {
            return Err(Error::Overflow);
        }
        Ok(
            Outbound {
                addr: addr.clone(),
                msg: Message::Version(
                    Versionmsg {
                        addr_from: self.node_address.clone(),
                        version: VERSION,
                        best_height: h as i32,
                    },
                ),
            },
        )
    }

    /// A pooled transaction addressed to a peer.
    pub fn send_tx(&self, addr: &String, tx: &Transaction) -> (r: Outbound)
        ensures
            r@ == (OutboundV {
                addr: addr@,
                msg: MessageV::Tx(
                    TxmsgV { addr_from: self.node_address@, transaction: tx@ },
                ),
            }),
    {
        Outbound {
            addr: addr.clone(),
            msg: Message::Tx(
                Txmsg { addr_from: self.node_address.clone(), transaction: clone_tx(tx) },
            ),
        }
    }

    /// An inventory addressed to a peer.
    pub fn send_inv(&self, addr: &String, kind: &str, items: Vec<String>) -> (r: Outbound)
        ensures
            r@ == (OutboundV {
                addr: addr@,
                msg: MessageV::Inv(
                    InvmsgV {
                        addr_from: self.node_address@,
                        kind: kind@,
                        items: views_of(items@),
                    },
                ),
            }),
    {
        Outbound {
            addr: addr.clone(),
            msg: Message::Inv(
                Invmsg { addr_from: self.node_address.clone(), kind: kind.to_owned(), items },
            ),
        }
    }

    /// A block addressed to a peer.
    pub fn send_block(&self, addr: &String, b: &Block) -> (r: Outbound)
        ensures
            r@ == (OutboundV {
                addr: addr@,
                msg: MessageV::Block(
                    BlockmsgV { addr_from: self.node_address@, block: b@ },
                ),
            }),
    {
        Outbound {
            addr: addr.clone(),
            msg: Message::Block(
                Blockmsg { addr_from: self.node_address.clone(), block: clone_block(b) },
            ),
        }
    }

    /// Our peer registry addressed to a peer.
    pub fn send_addr(&self, addr: &String) -> (r: Outbound)
        ensures
            r@ == (OutboundV {
                addr: addr@,
                msg: MessageV::Addr(views_of(self.inner.known_nodes@)),
            }),
    {
        Outbound {
            addr: addr.clone(),
            msg: Message::Addr(self.get_known_nodes()),
        }
    }
}

/// A prefix survives one more appended block.
pub proof fn lemma_prefix_push(a: Seq<BlockV>, b: Seq<BlockV>, x: BlockV)
    requires
        a.is_prefix_of(b),
    ensures
        a.is_prefix_of(b.push(x)),
{
    assert(b.push(x).subrange(0, a.len() as int) =~= b.subrange(0, a.len() as int));
}

/// An exhausted pool search means no pooled transaction has the id.
pub proof fn lemma_find_pool_none(pool: Seq<TransactionV>, id: Seq<char>)
    ensures
        (find_pool_tx(pool, id) is None) <==> !mempool_has(pool, id),
    decreases pool.len(),
{
    if pool.len() > 0 {
        lemma_find_pool_none(pool.skip(1), id);
        if pool[0].id == id {
        } else {
            assert forall|k: int|
                0 <= k < pool.len() && (#[trigger] pool[k]).id == id implies mempool_has(
                pool.skip(1),
                id,
            ) by {
                assert(pool.skip(1)[k - 1] == pool[k]);
            }
            if mempool_has(pool.skip(1), id) {
                let k = choose|k: int|
                    0 <= k < pool.skip(1).len() && (#[trigger] pool.skip(1)[k]).id == id;
                assert(pool[k + 1] == pool.skip(1)[k]);
            }
        }
    }
}

/// The first pooled transaction with the given id.
pub open spec fn find_pool_tx(pool: Seq<TransactionV>, id: Seq<char>) -> Option<TransactionV>
    decreases pool.len(),
{
    if pool.len() == 0 {
        None
    } else if pool[0].id == id {
        Some(pool[0])
    } else {
        find_pool_tx(pool.skip(1), id)
    }
}

/// Search the mempool by id, returning a copy.
fn find_in_pool(pool: &Vec<Transaction>, id: &String) -> (r: Option<Transaction>)
    ensures
        match r {
            Some(t) => find_pool_tx(views_of(pool@), id@) == Some(t@),
            None => find_pool_tx(views_of(pool@), id@) is None,
        },
{
    let n = pool.len();
    let mut i: usize = 0;
    proof {
        assert(views_of(pool@).skip(0) =~= views_of(pool@));
    }
    while i < n
        invariant
            i <= n,
            n == pool@.len(),
            find_pool_tx(views_of(pool@), id@) == find_pool_tx(
                views_of(pool@).skip(i as int),
                id@,
            ),
        decreases n - i,
    {
        let ghost s = views_of(pool@);
        if pool[i].id == *id {
            proof {
                assert(s.skip(i as int)[0] == s[i as int]);
            }
            return Some(clone_tx(&pool[i]));
        }
        proof {
            assert(s.skip(i as int)[0] == s[i as int]);
            assert(s.skip(i as int).skip(1) =~= s.skip(i + 1));
        }
        i += 1;
    }
    proof {
        assert(views_of(pool@).skip(n as int) =~= Seq::<TransactionV>::empty());
    }
    None
}

} // verus!
