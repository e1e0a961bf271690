//! Transaction inputs and outputs.

use vstd::prelude::*;

use crate::codec::{
    decode_bytes, decode_i32, decode_str, encode_bytes, encode_i32, encode_str, decode_list,
    encode_list, enc_bytes, enc_i32, enc_list, enc_str, lemma_starts_at_concat,
    lemma_subrange_concat, starts_at, views_of, Wire,
};
use crate::errors::Error;
use crate::hashing::{hash_pub_key, pub_key_hash_of};

verus! {

/// An input: it spends output `vout` of the transaction `txid`, and carries
/// the spender's signature and public key.
#[derive(Debug, Clone)]
pub struct TXInput {
    pub txid: String,
    pub vout: i32,
    pub signature: Vec<u8>,
    pub pub_key: Vec<u8>,
}

/// An output: a value locked to the holder of a public-key hash.
#[derive(Debug, Clone)]
pub struct TXOutput {
    pub value: i32,
    pub pub_key_hash: Vec<u8>,
}

/// The ordered outputs that a UTXO store entry holds for one transaction.
#[derive(Debug, Clone)]
pub struct TXOutputs {
    pub outputs: Vec<TXOutput>,
}

#[verifier::ext_equal]
pub ghost struct TXInputV {
    pub txid: Seq<char>,
    pub vout: i32,
    pub signature: Seq<u8>,
    pub pub_key: Seq<u8>,
}

#[verifier::ext_equal]
pub ghost struct TXOutputV {
    pub value: i32,
    pub pub_key_hash: Seq<u8>,
}

impl View for TXInput {
    type V = TXInputV;

    open spec fn view(&self) -> TXInputV {
        TXInputV {
            txid: self.txid@,
            vout: self.vout,
            signature: self.signature@,
            pub_key: self.pub_key@,
        }
    }
}

impl View for TXOutput {
    type V = TXOutputV;

    open spec fn view(&self) -> TXOutputV {
        TXOutputV { value: self.value, pub_key_hash: self.pub_key_hash@ }
    }
}

impl View for TXOutputs {
    type V = Seq<TXOutputV>;

    open spec fn view(&self) -> Seq<TXOutputV> {
        views_of(self.outputs@)
    }
}

/// Copy a byte vector.
pub fn clone_vec_u8(v: &Vec<u8>) -> (r: Vec<u8>)
    ensures
        r@ == v@,
{
    let mut out: Vec<u8> = Vec::new();
    let n = v.len();
    let mut i: usize = 0;
    while i < n
        invariant
            i <= n,
            n == v@.len(),
            out@ == v@.take(i as int),
        decreases n - i,
    {
        out.push(v[i]);
        proof {
            assert(v@.take(i + 1 as int) =~= v@.take(i as int).push(v@[i as int]));
        }
        i += 1;
    }
    proof {
        assert(v@.take(n as int) =~= v@);
    }
    out
}

/// Byte slices hold the same bytes.
pub fn bytes_eq(a: &[u8], b: &[u8]) -> (r: bool)
    ensures
        r == (a@ == b@),
{
    if a.len() != b.len() {
        assert(a@.len() != b@.len());
        return false;
    }
    let n = a.len();
    let mut i: usize = 0;
    while i < n
        invariant
            i <= n,
            n == a@.len() == b@.len(),
            forall|k: int| 0 <= k < i ==> a@[k] == b@[k],
        decreases n - i,
    {
        if a[i] != b[i] {
            return false;
        }
        i += 1;
    }
    proof {
        assert(a@ =~= b@);
    }
    true
}

impl Wire for TXInput {
    open spec fn enc_v(v: TXInputV) -> Seq<u8> {
        enc_str(v.txid) + enc_i32(v.vout) + enc_bytes(v.signature) + enc_bytes(v.pub_key)
    }

    proof fn enc_v_min_len(v: TXInputV) {
    }

    fn encode(&self, out: &mut Vec<u8>) {
        encode_str(out, self.txid.as_str());
        encode_i32(out, self.vout);
        encode_bytes(out, &self.signature);
        encode_bytes(out, &self.pub_key);
        assert(out@ =~= old(out)@ + Self::enc_v(self@));
    }

    fn decode(data: &[u8], pos: usize) -> (r: Option<(Self, usize)>) {
        proof {
            assert forall|v: TXInputV| #[trigger]
                starts_at(data@, pos as int, Self::enc_v(v)) implies starts_at(
                data@,
                pos as int,
                enc_str(v.txid),
            ) && starts_at(data@, pos + enc_str(v.txid).len(), enc_i32(v.vout)) && starts_at(
                data@,
                pos + enc_str(v.txid).len() + 4,
                enc_bytes(v.signature),
            ) && starts_at(
                data@,
                pos + enc_str(v.txid).len() + 4 + enc_bytes(v.signature).len(),
                enc_bytes(v.pub_key),
            ) by {
                lemma_starts_at_concat(
                    data@,
                    pos as int,
                    enc_str(v.txid) + enc_i32(v.vout) + enc_bytes(v.signature),
                    enc_bytes(v.pub_key),
                );
                lemma_starts_at_concat(
                    data@,
                    pos as int,
                    enc_str(v.txid) + enc_i32(v.vout),
                    enc_bytes(v.signature),
                );
                lemma_starts_at_concat(data@, pos as int, enc_str(v.txid), enc_i32(v.vout));
            }
        }
        let (txid, p1) = match decode_str(data, pos) {
            None => {
                return None;
            },
            Some(x) => x,
        };
        let (vout, p2) = match decode_i32(data, p1) {
            None => {
                return None;
            },
            Some(x) => x,
        };
        let (signature, p3) = match decode_bytes(data, p2) {
            None => {
                return None;
            },
            Some(x) => x,
        };
        let (pub_key, p4) = match decode_bytes(data, p3) {
            None => {
                return None;
            },
            Some(x) => x,
        };
        let x = TXInput { txid, vout, signature, pub_key };
        proof {
            lemma_subrange_concat(data@, pos as int, p1 as int, p2 as int);
            lemma_subrange_concat(data@, pos as int, p2 as int, p3 as int);
            lemma_subrange_concat(data@, pos as int, p3 as int, p4 as int);
            assert(data@.subrange(pos as int, p4 as int) == Self::enc_v(x@));
            assert forall|v: TXInputV| #[trigger]
                starts_at(data@, pos as int, Self::enc_v(v)) implies x@ =~= v && p4 as int == pos
                + Self::enc_v(v).len() by {}
        }
        Some((x, p4))
    }
}

impl Wire for TXOutput {
    open spec fn enc_v(v: TXOutputV) -> Seq<u8> {
        enc_i32(v.value) + enc_bytes(v.pub_key_hash)
    }

    proof fn enc_v_min_len(v: TXOutputV) {
    }

    fn encode(&self, out: &mut Vec<u8>) {
        encode_i32(out, self.value);
        encode_bytes(out, &self.pub_key_hash);
        assert(out@ =~= old(out)@ + Self::enc_v(self@));
    }

    fn decode(data: &[u8], pos: usize) -> (r: Option<(Self, usize)>) {
        proof {
            assert forall|v: TXOutputV| #[trigger]
                starts_at(data@, pos as int, Self::enc_v(v)) implies starts_at(
                data@,
                pos as int,
                enc_i32(v.value),
            ) && starts_at(data@, pos + 4, enc_bytes(v.pub_key_hash)) by {
                lemma_starts_at_concat(data@, pos as int, enc_i32(v.value), enc_bytes(v.pub_key_hash));
            }
        }
        let (value, p1) = match decode_i32(data, pos) {
            None => {
                return None;
            },
            Some(x) => x,
        };
        let (pub_key_hash, p2) = match decode_bytes(data, p1) {
            None => {
                return None;
            },
            Some(x) => x,
        };
        let x = TXOutput { value, pub_key_hash };
        proof {
            lemma_subrange_concat(data@, pos as int, p1 as int, p2 as int);
            assert forall|v: TXOutputV| #[trigger]
                starts_at(data@, pos as int, Self::enc_v(v)) implies x@ =~= v && p2 as int == pos
                + Self::enc_v(v).len() by {}
        }
        Some((x, p2))
    }
}

impl Wire for TXOutputs {
    open spec fn enc_v(v: Seq<TXOutputV>) -> Seq<u8> {
        enc_list::<TXOutput>(v)
    }

    proof fn enc_v_min_len(v: Seq<TXOutputV>) {
    }

    fn encode(&self, out: &mut Vec<u8>) {
        encode_list::<TXOutput>(out, &self.outputs);
    }

    fn decode(data: &[u8], pos: usize) -> (r: Option<(Self, usize)>) {
        match decode_list::<TXOutput>(data, pos) {
            None => None,
            Some((outputs, end)) => Some((TXOutputs { outputs }, end)),
        }
    }
}

impl TXInput {
    /// The input can spend outputs locked to `unlocking_data`: hashing the
    /// input's public key yields exactly that owner key hash.
    pub fn can_unlock_output_with(&self, unlocking_data: &[u8]) -> (r: bool)
        ensures
            r == (pub_key_hash_of(self.pub_key@) == unlocking_data@),
    {
        let pubkeyhash = hash_pub_key(self.pub_key.as_slice());
        bytes_eq(pubkeyhash.as_slice(), unlocking_data)
    }
}

/// The payload bytes carried by a textual wallet address, if it parses.
pub uninterp spec fn address_body_of(s: Seq<char>) -> Option<Seq<u8>>;

/// At least ten characters follow every colon. The outside address parser
/// aborts on certain strings whose part after the colon has fewer than ten
/// characters (its payload slicing underflows), so those stay out.
pub open spec fn address_parse_safe(s: Seq<char>) -> bool {
    forall|i: int| 0 <= i < s.len() && s[i] == ':' ==> s.len() - i - 1 >= 10
}

/// At least ten characters follow every colon.
pub fn check_parse_safe(s: &str) -> (r: bool)
    ensures
        r == address_parse_safe(s@),
{
    let n = s.unicode_len();
    let mut i: usize = 0;
    while i < n
        invariant
            i <= n,
            n == s@.len(),
            forall|k: int| 0 <= k < i && s@[k] == ':' ==> n - k - 1 >= 10,
        decreases n - i,
    {
        if s.get_char(i) == ':' {
            if n - i - 1 < 10 {
                return false;
            }
        }
        i += 1;
    }
    true
}

/// Relies on bitcoincash_addr's `Address::decode`: parsing is a function of
/// the string alone; on success the address body carries the payload bytes.
/// The `requires` keeps out the strings on which the parser aborts.
#[verifier::external_body]
fn decode_address(addr: &str) -> (r: Option<Vec<u8>>)
    requires
        address_parse_safe(addr@),
    ensures
        match r {
            Some(v) => address_body_of(addr@) == Some(v@),
            None => address_body_of(addr@) is None,
        },
{
    match bitcoincash_addr::Address::decode(addr) {
        Ok(a) => Some(a.body),
        Err(_) => None,
    }
}

impl TXOutput {
    /// The output is owned by `unlocking_data`.
    pub fn can_be_unlock_with(&self, unlocking_data: &[u8]) -> (r: bool)
        ensures
            r == (self.pub_key_hash@ == unlocking_data@),
    {
        bytes_eq(self.pub_key_hash.as_slice(), unlocking_data)
    }

    /// The output is locked to exactly this owner key hash.
    pub fn is_locked_with_key(&self, pub_key_hash: &[u8]) -> (r: bool)
        ensures
            r == (self.pub_key_hash@ == pub_key_hash@),
    {
        bytes_eq(self.pub_key_hash.as_slice(), pub_key_hash)
    }

    /// Lock the output to the owner named by a textual address.
    fn lock(&mut self, address: &str) -> (r: Result<(), Error>)
        ensures
            match r {
                Ok(()) => address_parse_safe(address@) && address_body_of(address@) == Some(
                    final(self).pub_key_hash@,
                ) && final(self).value == old(self).value,
                Err(e) => e == Error::Validation && (!address_parse_safe(address@)
                    || address_body_of(address@) is None) && *final(self) == *old(self),
            },
    {
        if !check_parse_safe(address) {
            return Err(Error::Validation);
        }
        match decode_address(address) {
            Some(body) => {
                self.pub_key_hash = body;
                Ok(())
            },
            None => Err(Error::Validation),
        }
    }

    /// An output of `value` locked to the owner named by `address`; rejected
    /// exactly when the address does not parse, or falls in the class the
    /// parser cannot be fed.
    pub fn new(value: i32, address: String) -> (r: Result<Self, Error>)
        ensures
            match r {
                Ok(o) => o@.value == value && address_parse_safe(address@) && address_body_of(
                    address@,
                ) == Some(o@.pub_key_hash),
                Err(e) => e == Error::Validation && (!address_parse_safe(address@)
                    || address_body_of(address@) is None),
            },
    {
        let mut txo = TXOutput { value, pub_key_hash: Vec::new() };
        match txo.lock(address.as_str()) {
            Ok(()) => Ok(txo),
            Err(e) => Err(e),
        }
    }
}

} // verus!
