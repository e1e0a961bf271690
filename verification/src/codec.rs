//! Byte codec for persisted and wire values.
//!
//! Every value is laid out as fixed-width little-endian integers and
//! length-prefixed byte runs, so that decoding is an exact inverse of
//! encoding. Each decoder promises two things: whatever it returns was the
//! encoding of the returned value (soundness), and whenever the input starts
//! with the encoding of some value it returns exactly that value and the
//! position one past its encoding (completeness). Together these give the
//! round-trip law: decoding an encoding yields the original value.

use vstd::prelude::*;

verus! {

// ---------------------------------------------------------------------------
// unsigned 64-bit integers
// ---------------------------------------------------------------------------

/// The encoding `e` appears in `data` at position `pos`.
pub open spec fn starts_at(data: Seq<u8>, pos: int, e: Seq<u8>) -> bool {
    0 <= pos <= data.len() && e.is_prefix_of(data.skip(pos))
}

pub open spec fn enc_u64(v: u64) -> Seq<u8> {
    seq![
        v as u8,
        (v >> 8) as u8,
        (v >> 16) as u8,
        (v >> 24) as u8,
        (v >> 32) as u8,
        (v >> 40) as u8,
        (v >> 48) as u8,
        (v >> 56) as u8,
    ]
}

pub fn encode_u64(out: &mut Vec<u8>, v: u64)
    ensures
        final(out)@ == old(out)@ + enc_u64(v),
{
    out.push(#[verifier::truncate] (v as u8));
    out.push(#[verifier::truncate] ((v >> 8) as u8));
    out.push(#[verifier::truncate] ((v >> 16) as u8));
    out.push(#[verifier::truncate] ((v >> 24) as u8));
    out.push(#[verifier::truncate] ((v >> 32) as u8));
    out.push(#[verifier::truncate] ((v >> 40) as u8));
    out.push(#[verifier::truncate] ((v >> 48) as u8));
    out.push(#[verifier::truncate] ((v >> 56) as u8));
    assert(out@ =~= old(out)@ + enc_u64(v));
}

/// The eight bytes of `enc_u64(w)` determine `w`.
proof fn lemma_u64_from_bytes(w: u64, v: u64)
    requires
        v == (w as u8) as u64 | (((w >> 8) as u8) as u64) << 8 | (((w >> 16) as u8) as u64) << 16
            | (((w >> 24) as u8) as u64) << 24 | (((w >> 32) as u8) as u64) << 32 | (((w
            >> 40) as u8) as u64) << 40 | (((w >> 48) as u8) as u64) << 48 | (((w
            >> 56) as u8) as u64) << 56,
    ensures
        v == w,
{
    assert(w == (w as u8) as u64 | (((w >> 8) as u8) as u64) << 8 | (((w >> 16) as u8) as u64)
        << 16 | (((w >> 24) as u8) as u64) << 24 | (((w >> 32) as u8) as u64) << 32 | (((w
        >> 40) as u8) as u64) << 40 | (((w >> 48) as u8) as u64) << 48 | (((w >> 56) as u8) as u64)
        << 56) by (bit_vector);
}

pub fn decode_u64(data: &[u8], pos: usize) -> (r: Option<(u64, usize)>)
    ensures
        r matches Some((v, end)) ==> pos + 8 == end && end <= data@.len() && data@.subrange(
            pos as int,
            end as int,
        ) == enc_u64(v),
        forall|w: u64| #[trigger]
            starts_at(data@, pos as int, enc_u64(w)) ==> r == Some::<(u64, usize)>(
                (w, (pos + 8) as usize),
            ),
{
    if pos >= data.len() || data.len() - pos < 8 {
        assert forall|w: u64| !(#[trigger] starts_at(data@, pos as int, enc_u64(w))) by {
            if pos as int <= data@.len() {
                assert(data@.skip(pos as int).len() < 8);
            }
        }
        return None;
    }
    let v = (data[pos] as u64) | (data[pos + 1] as u64) << 8 | (data[pos + 2] as u64) << 16 | (
    data[pos + 3] as u64) << 24 | (data[pos + 4] as u64) << 32 | (data[pos + 5] as u64) << 40 | (
    data[pos + 6] as u64) << 48 | (data[pos + 7] as u64) << 56;
    proof {
        assert(data@.subrange(pos as int, pos + 8 as int) =~= enc_u64(v)) by {
            let b0 = data@[pos as int];
            let b1 = data@[pos + 1];
            let b2 = data@[pos + 2];
            let b3 = data@[pos + 3];
            let b4 = data@[pos + 4];
            let b5 = data@[pos + 5];
            let b6 = data@[pos + 6];
            let b7 = data@[pos + 7];
            assert(v == (b0 as u64) | (b1 as u64) << 8 | (b2 as u64) << 16 | (b3 as u64) << 24 | (
            b4 as u64) << 32 | (b5 as u64) << 40 | (b6 as u64) << 48 | (b7 as u64) << 56);
            assert(b0 == v as u8 && b1 == (v >> 8) as u8 && b2 == (v >> 16) as u8 && b3 == (v
                >> 24) as u8 && b4 == (v >> 32) as u8 && b5 == (v >> 40) as u8 && b6 == (v
                >> 48) as u8 && b7 == (v >> 56) as u8) by {
                assert(((b0 as u64) | (b1 as u64) << 8 | (b2 as u64) << 16 | (b3 as u64) << 24 | (
                b4 as u64) << 32 | (b5 as u64) << 40 | (b6 as u64) << 48 | (b7 as u64) << 56) as u8
                    == b0 && (((b0 as u64) | (b1 as u64) << 8 | (b2 as u64) << 16 | (b3 as u64)
                    << 24 | (b4 as u64) << 32 | (b5 as u64) << 40 | (b6 as u64) << 48 | (b7 as u64)
                    << 56) >> 8) as u8 == b1 && (((b0 as u64) | (b1 as u64) << 8 | (b2 as u64)
                    << 16 | (b3 as u64) << 24 | (b4 as u64) << 32 | (b5 as u64) << 40 | (b6 as u64)
                    << 48 | (b7 as u64) << 56) >> 16) as u8 == b2 && (((b0 as u64) | (b1 as u64)
                    << 8 | (b2 as u64) << 16 | (b3 as u64) << 24 | (b4 as u64) << 32 | (b5 as u64)
                    << 40 | (b6 as u64) << 48 | (b7 as u64) << 56) >> 24) as u8 == b3 && (((
                b0 as u64) | (b1 as u64) << 8 | (b2 as u64) << 16 | (b3 as u64) << 24 | (b4 as u64)
                    << 32 | (b5 as u64) << 40 | (b6 as u64) << 48 | (b7 as u64) << 56) >> 32) as u8
                    == b4 && (((b0 as u64) | (b1 as u64) << 8 | (b2 as u64) << 16 | (b3 as u64)
                    << 24 | (b4 as u64) << 32 | (b5 as u64) << 40 | (b6 as u64) << 48 | (b7 as u64)
                    << 56) >> 40) as u8 == b5 && (((b0 as u64) | (b1 as u64) << 8 | (b2 as u64)
                    << 16 | (b3 as u64) << 24 | (b4 as u64) << 32 | (b5 as u64) << 40 | (b6 as u64)
                    << 48 | (b7 as u64) << 56) >> 48) as u8 == b6 && (((b0 as u64) | (b1 as u64)
                    << 8 | (b2 as u64) << 16 | (b3 as u64) << 24 | (b4 as u64) << 32 | (b5 as u64)
                    << 40 | (b6 as u64) << 48 | (b7 as u64) << 56) >> 56) as u8 == b7)
                    by (bit_vector);
            }
        }
        assert forall|w: u64| #[trigger]
            starts_at(data@, pos as int, enc_u64(w)) implies w == v by {
            let s = data@.skip(pos as int);
            assert(enc_u64(w)[0] == s[0] && enc_u64(w)[1] == s[1] && enc_u64(w)[2] == s[2]
                && enc_u64(w)[3] == s[3] && enc_u64(w)[4] == s[4] && enc_u64(w)[5] == s[5]
                && enc_u64(w)[6] == s[6] && enc_u64(w)[7] == s[7]);
            assert(s[0] == data@[pos as int] && s[1] == data@[pos + 1] && s[2] == data@[pos + 2]
                && s[3] == data@[pos + 3] && s[4] == data@[pos + 4] && s[5] == data@[pos + 5] && s[6]
                == data@[pos + 6] && s[7] == data@[pos + 7]);
            lemma_u64_from_bytes(
                w,
                (w as u8) as u64 | (((w >> 8) as u8) as u64) << 8 | (((w >> 16) as u8) as u64)
                    << 16 | (((w >> 24) as u8) as u64) << 24 | (((w >> 32) as u8) as u64) << 32 | ((
                (w >> 40) as u8) as u64) << 40 | (((w >> 48) as u8) as u64) << 48 | (((w
                    >> 56) as u8) as u64) << 56,
            );
        }
    }
    Some((v, pos + 8))
}

// ---------------------------------------------------------------------------
// unsigned 32-bit and signed 32-bit integers
// ---------------------------------------------------------------------------

pub open spec fn enc_u32(v: u32) -> Seq<u8> {
    seq![v as u8, (v >> 8) as u8, (v >> 16) as u8, (v >> 24) as u8]
}

pub fn encode_u32(out: &mut Vec<u8>, v: u32)
    ensures
        final(out)@ == old(out)@ + enc_u32(v),
{
    out.push(#[verifier::truncate] (v as u8));
    out.push(#[verifier::truncate] ((v >> 8) as u8));
    out.push(#[verifier::truncate] ((v >> 16) as u8));
    out.push(#[verifier::truncate] ((v >> 24) as u8));
    assert(out@ =~= old(out)@ + enc_u32(v));
}

pub fn decode_u32(data: &[u8], pos: usize) -> (r: Option<(u32, usize)>)
    ensures
        r matches Some((v, end)) ==> pos + 4 == end && end <= data@.len() && data@.subrange(
            pos as int,
            end as int,
        ) == enc_u32(v),
        forall|w: u32| #[trigger]
            starts_at(data@, pos as int, enc_u32(w)) ==> r == Some::<(u32, usize)>(
                (w, (pos + 4) as usize),
            ),
{
    if pos >= data.len() || data.len() - pos < 4 {
        assert forall|w: u32| !(#[trigger] starts_at(data@, pos as int, enc_u32(w))) by {
            if pos as int <= data@.len() {
                assert(data@.skip(pos as int).len() < 4);
            }
        }
        return None;
    }
    let v = (data[pos] as u32) | (data[pos + 1] as u32) << 8 | (data[pos + 2] as u32) << 16 | (
    data[pos + 3] as u32) << 24;
    proof {
        let b0 = data@[pos as int];
        let b1 = data@[pos + 1];
        let b2 = data@[pos + 2];
        let b3 = data@[pos + 3];
        assert(data@.subrange(pos as int, pos + 4 as int) =~= enc_u32(v)) by {
            assert(((b0 as u32) | (b1 as u32) << 8 | (b2 as u32) << 16 | (b3 as u32) << 24) as u8
                == b0 && (((b0 as u32) | (b1 as u32) << 8 | (b2 as u32) << 16 | (b3 as u32) << 24)
                >> 8) as u8 == b1 && (((b0 as u32) | (b1 as u32) << 8 | (b2 as u32) << 16 | (
            b3 as u32) << 24) >> 16) as u8 == b2 && (((b0 as u32) | (b1 as u32) << 8 | (b2 as u32)
                << 16 | (b3 as u32) << 24) >> 24) as u8 == b3) by (bit_vector);
        }
        assert forall|w: u32| #[trigger]
            starts_at(data@, pos as int, enc_u32(w)) implies w == v by {
            let s = data@.skip(pos as int);
            assert(enc_u32(w)[0] == s[0] && enc_u32(w)[1] == s[1] && enc_u32(w)[2] == s[2]
                && enc_u32(w)[3] == s[3]);
            assert(s[0] == b0 && s[1] == b1 && s[2] == b2 && s[3] == b3);
            assert(w == (w as u8) as u32 | (((w >> 8) as u8) as u32) << 8 | (((w
                >> 16) as u8) as u32) << 16 | (((w >> 24) as u8) as u32) << 24) by (bit_vector);
        }
    }
    Some((v, pos + 4))
}

/// The unsigned 32-bit pattern that stands for a signed 32-bit value.
pub open spec fn u32_of_i32(v: i32) -> u32 {
    if v >= 0 {
        v as u32
    } else {
        (v + 0x1_0000_0000) as u32
    }
}

pub open spec fn enc_i32(v: i32) -> Seq<u8> {
    enc_u32(u32_of_i32(v))
}

pub fn encode_i32(out: &mut Vec<u8>, v: i32)
    ensures
        final(out)@ == old(out)@ + enc_i32(v),
{
    if v >= 0 {
        encode_u32(out, v as u32);
    } else {
        let wide: i64 = (v as i64) + 0x1_0000_0000;
        encode_u32(out, wide as u32);
    }
}

pub fn decode_i32(data: &[u8], pos: usize) -> (r: Option<(i32, usize)>)
    ensures
        r matches Some((v, end)) ==> pos + 4 == end && end <= data@.len() && data@.subrange(
            pos as int,
            end as int,
        ) == enc_i32(v),
        forall|w: i32| #[trigger]
            starts_at(data@, pos as int, enc_i32(w)) ==> r == Some::<(i32, usize)>(
                (w, (pos + 4) as usize),
            ),
{
    match decode_u32(data, pos) {
        None => {
            assert forall|w: i32| !(#[trigger] starts_at(data@, pos as int, enc_i32(w))) by {}
            None
        },
        Some((u, end)) => {
            let v: i32 = if u <= 0x7fff_ffff {
                u as i32
            } else {
                ((u as i64) - 0x1_0000_0000) as i32
            };
            proof {
                assert(u32_of_i32(v) == u);
                assert forall|w: i32| #[trigger]
                    starts_at(data@, pos as int, enc_i32(w)) implies w == v by {
                    assert(u32_of_i32(w) == u);
                }
            }
            Some((v, end))
        },
    }
}

// ---------------------------------------------------------------------------
// unsigned 128-bit integers, as two 64-bit halves
// ---------------------------------------------------------------------------

pub open spec fn enc_u128(v: u128) -> Seq<u8> {
    enc_u64((v % 0x1_0000_0000_0000_0000) as u64) + enc_u64((v / 0x1_0000_0000_0000_0000) as u64)
}

pub fn encode_u128(out: &mut Vec<u8>, v: u128)
    ensures
        final(out)@ == old(out)@ + enc_u128(v),
{
    let lo: u64 = (v % 0x1_0000_0000_0000_0000) as u64;
    let hi: u64 = (v / 0x1_0000_0000_0000_0000) as u64;
    encode_u64(out, lo);
    encode_u64(out, hi);
}

pub fn decode_u128(data: &[u8], pos: usize) -> (r: Option<(u128, usize)>)
    ensures
        r matches Some((v, end)) ==> pos + 16 == end && end <= data@.len() && data@.subrange(
            pos as int,
            end as int,
        ) == enc_u128(v),
        forall|w: u128| #[trigger]
            starts_at(data@, pos as int, enc_u128(w)) ==> r == Some::<(u128, usize)>(
                (w, (pos + 16) as usize),
            ),
{
    let lo = match decode_u64(data, pos) {
        None => {
            assert forall|w: u128| !(#[trigger] starts_at(data@, pos as int, enc_u128(w))) by {
                if starts_at(data@, pos as int, enc_u128(w)) {
                    lemma_starts_at_concat(
                        data@,
                        pos as int,
                        enc_u64((w % 0x1_0000_0000_0000_0000) as u64),
                        enc_u64((w / 0x1_0000_0000_0000_0000) as u64),
                    );
                }
            }
            return None;
        },
        Some((lo, _)) => lo,
    };
    let hi = match decode_u64(data, pos + 8) {
        None => {
            assert forall|w: u128| !(#[trigger] starts_at(data@, pos as int, enc_u128(w))) by {
                if starts_at(data@, pos as int, enc_u128(w)) {
                    lemma_starts_at_concat(
                        data@,
                        pos as int,
                        enc_u64((w % 0x1_0000_0000_0000_0000) as u64),
                        enc_u64((w / 0x1_0000_0000_0000_0000) as u64),
                    );
                }
            }
            return None;
        },
        Some((hi, _)) => hi,
    };
    let v: u128 = (hi as u128) * 0x1_0000_0000_0000_0000 + (lo as u128);
    proof {
        assert(v % 0x1_0000_0000_0000_0000 == lo as u128 && v / 0x1_0000_0000_0000_0000
            == hi as u128) by (nonlinear_arith)
            requires
                v == (hi as u128) * 0x1_0000_0000_0000_0000 + (lo as u128),
                (lo as u128) < 0x1_0000_0000_0000_0000;
        assert(data@.subrange(pos as int, pos + 16 as int) =~= enc_u128(v)) by {
            assert(data@.subrange(pos as int, pos + 8 as int) == enc_u64(lo));
            assert(data@.subrange(pos + 8 as int, pos + 16 as int) == enc_u64(hi));
        }
        assert forall|w: u128| #[trigger]
            starts_at(data@, pos as int, enc_u128(w)) implies w == v by {
            lemma_starts_at_concat(
                data@,
                pos as int,
                enc_u64((w % 0x1_0000_0000_0000_0000) as u64),
                enc_u64((w / 0x1_0000_0000_0000_0000) as u64),
            );
            assert((w % 0x1_0000_0000_0000_0000) as u64 == lo && (w
                / 0x1_0000_0000_0000_0000) as u64 == hi);
            assert(w == (w / 0x1_0000_0000_0000_0000) * 0x1_0000_0000_0000_0000 + (w
                % 0x1_0000_0000_0000_0000)) by (nonlinear_arith);
        }
    }
    Some((v, pos + 16))
}

// ---------------------------------------------------------------------------
// prefix algebra
// ---------------------------------------------------------------------------

/// A concatenation appears at `pos` exactly when its left part appears at
/// `pos` and its right part appears just past the left part.
pub proof fn lemma_starts_at_concat(data: Seq<u8>, pos: int, a: Seq<u8>, b: Seq<u8>)
    requires
        starts_at(data, pos, a + b),
    ensures
        starts_at(data, pos, a),
        starts_at(data, pos + a.len(), b),
{
    assert((a + b).len() == a.len() + b.len());
    assert forall|i: int| 0 <= i < a.len() implies a[i] == data.skip(pos)[i] by {
        assert((a + b)[i] == a[i]);
    }
    assert(a =~= data.skip(pos).subrange(0, a.len() as int));
    assert forall|i: int| 0 <= i < b.len() implies b[i] == data.skip(pos + a.len())[i] by {
        assert((a + b)[a.len() + i] == b[i]);
        assert(data.skip(pos)[a.len() + i] == data.skip(pos + a.len())[i]);
    }
    assert(b =~= data.skip(pos + a.len()).subrange(0, b.len() as int));
}

/// A decoded subrange is an encoding standing at its position.
pub proof fn lemma_starts_at_from_subrange(data: Seq<u8>, pos: int, end: int, e: Seq<u8>)
    requires
        0 <= pos <= end <= data.len(),
        data.subrange(pos, end) == e,
    ensures
        starts_at(data, pos, e),
{
    assert(e =~= data.skip(pos).subrange(0, e.len() as int));
}

/// Two adjacent decoded subranges concatenate.
pub proof fn lemma_subrange_concat(data: Seq<u8>, pos: int, mid: int, end: int)
    requires
        0 <= pos <= mid <= end <= data.len(),
    ensures
        data.subrange(pos, end) == data.subrange(pos, mid) + data.subrange(mid, end),
{
    assert(data.subrange(pos, end) =~= data.subrange(pos, mid) + data.subrange(mid, end));
}

// ---------------------------------------------------------------------------
// length-prefixed byte runs
// ---------------------------------------------------------------------------

pub open spec fn enc_bytes(b: Seq<u8>) -> Seq<u8> {
    enc_u64(b.len() as u64) + b
}

pub fn encode_bytes(out: &mut Vec<u8>, b: &Vec<u8>)
    ensures
        final(out)@ == old(out)@ + enc_bytes(b@),
{
    encode_u64(out, b.len() as u64);
    let ghost mid = out@;
    out.extend_from_slice(b.as_slice());
    assert(out@ =~= old(out)@ + enc_bytes(b@));
}

pub fn decode_bytes(data: &[u8], pos: usize) -> (r: Option<(Vec<u8>, usize)>)
    ensures
        r matches Some((v, end)) ==> pos <= end <= data@.len() && data@.subrange(
            pos as int,
            end as int,
        ) == enc_bytes(v@),
        forall|b: Seq<u8>| #[trigger]
            starts_at(data@, pos as int, enc_bytes(b)) ==> (r matches Some((v, end)) && v@ == b
                && end as int == pos + enc_bytes(b).len()),
{
    let dlen = data.len();
    proof {
        assert forall|b: Seq<u8>| #[trigger]
            starts_at(data@, pos as int, enc_bytes(b)) implies starts_at(
            data@,
            pos as int,
            enc_u64(b.len() as u64),
        ) && b.len() <= data@.len() by {
            lemma_starts_at_concat(data@, pos as int, enc_u64(b.len() as u64), b);
        }
    }
    let (count, cur) = match decode_u64(data, pos) {
        None => {
            return None;
        },
        Some(p) => p,
    };
    if count > (dlen - cur) as u64 {
        proof {
            assert forall|b: Seq<u8>| !(#[trigger] starts_at(data@, pos as int, enc_bytes(b))) by {
                if starts_at(data@, pos as int, enc_bytes(b)) {
                    lemma_starts_at_concat(data@, pos as int, enc_u64(b.len() as u64), b);
                    assert(b.len() as u64 == count);
                    assert(b.is_prefix_of(data@.skip(pos + 8)));
                }
            }
        }
        return None;
    }
    let n = count as usize;
    let mut v: Vec<u8> = Vec::new();
    let mut i: usize = 0;
    while i < n
        invariant
            i <= n,
            n <= dlen - cur,
            cur == pos + 8,
            pos + 8 <= dlen == data@.len(),
            v@ =~= data@.subrange(cur as int, cur + i as int),
        decreases n - i,
    {
        v.push(data[cur + i]);
        proof {
            assert(v@ =~= data@.subrange(cur as int, cur + (i + 1) as int));
        }
        i += 1;
    }
    proof {
        assert(data@.subrange(pos as int, pos + 8 + n as int) =~= enc_u64(count) + v@) by {
            lemma_subrange_concat(data@, pos as int, pos + 8, pos + 8 + n as int);
        }
        assert(v@.len() as u64 == count);
        assert forall|b: Seq<u8>| #[trigger]
            starts_at(data@, pos as int, enc_bytes(b)) implies b == v@ && pos + enc_bytes(b).len()
            == pos + 8 + n as int by {
            lemma_starts_at_concat(data@, pos as int, enc_u64(b.len() as u64), b);
            assert(b.len() as u64 == count);
            assert(b.len() <= data@.len());
            assert(b.len() == n);
            assert(b =~= v@) by {
                assert forall|k: int| 0 <= k < b.len() implies b[k] == v@[k] by {
                    assert(b[k] == data@.skip(pos + 8)[k]);
                }
            }
        }
    }
    Some((v, pos + 8 + n))
}

// ---------------------------------------------------------------------------
// strings, as length-prefixed UTF-8 bytes
// ---------------------------------------------------------------------------

pub open spec fn enc_str(s: Seq<char>) -> Seq<u8> {
    enc_bytes(vstd::utf8::encode_utf8(s))
}

/// Relies on `String::from_utf8`: it succeeds exactly on valid UTF-8 input
/// and the returned string's bytes are the input bytes.
#[verifier::external_body]
fn string_from_utf8(v: Vec<u8>) -> (r: Option<String>)
    ensures
        r matches Some(s) ==> vstd::utf8::encode_utf8(s@) == v@,
        vstd::utf8::valid_utf8(v@) ==> r is Some,
{
    String::from_utf8(v).ok()
}

pub fn encode_str(out: &mut Vec<u8>, s: &str)
    ensures
        final(out)@ == old(out)@ + enc_str(s@),
{
    let b = s.as_bytes_vec();
    encode_bytes(out, &b);
}

pub fn decode_str(data: &[u8], pos: usize) -> (r: Option<(String, usize)>)
    ensures
        r matches Some((v, end)) ==> pos <= end <= data@.len() && data@.subrange(
            pos as int,
            end as int,
        ) == enc_str(v@),
        forall|s: Seq<char>| #[trigger]
            starts_at(data@, pos as int, enc_str(s)) ==> (r matches Some((v, end)) && v@ == s
                && end as int == pos + enc_str(s).len()),
{
    broadcast use vstd::utf8::encode_utf8_valid_utf8, vstd::utf8::encode_utf8_decode_utf8;

    let (bytes, end) = match decode_bytes(data, pos) {
        None => {
            return None;
        },
        Some(p) => p,
    };
    let ghost bv = bytes@;
    match string_from_utf8(bytes) {
        None => {
            proof {
                assert forall|s: Seq<char>| !(#[trigger] starts_at(
                    data@,
                    pos as int,
                    enc_str(s),
                )) by {
                    if starts_at(data@, pos as int, enc_str(s)) {
                        assert(vstd::utf8::encode_utf8(s) == bv);
                        assert(vstd::utf8::valid_utf8(bv));
                    }
                }
            }
            None
        },
        Some(v) => {
            proof {
                assert(vstd::utf8::encode_utf8(v@) == bv);
                assert forall|s: Seq<char>| #[trigger]
                    starts_at(data@, pos as int, enc_str(s)) implies v@ == s by {
                    assert(vstd::utf8::encode_utf8(s) == bv);
                    assert(vstd::utf8::decode_utf8(vstd::utf8::encode_utf8(s)) == s);
                    assert(vstd::utf8::decode_utf8(vstd::utf8::encode_utf8(v@)) == v@);
                }
            }
            Some((v, end))
        },
    }
}

// ---------------------------------------------------------------------------
// values with a wire format, and lists of them
// ---------------------------------------------------------------------------

/// The views of a sequence of values.
pub open spec fn views_of<T: View>(s: Seq<T>) -> Seq<T::V> {
    s.map_values(|t: T| t@)
}

/// A value with a fixed wire format. `enc_v` gives the encoding of a value's
/// view; `encode` appends exactly that; `decode` inverts it: whatever comes
/// back was encoded at `pos` (soundness), and an encoding at `pos` is decoded
/// to exactly its value (completeness).
pub trait Wire: View + Sized {
    spec fn enc_v(v: Self::V) -> Seq<u8>;

    /// No value encodes to nothing, so a count prefix cannot overshoot the
    /// data it prefixes.
    proof fn enc_v_min_len(v: Self::V)
        ensures
            Self::enc_v(v).len() >= 1,
    ;

    fn encode(&self, out: &mut Vec<u8>)
        ensures
            final(out)@ == old(out)@ + Self::enc_v(self@),
    ;

    fn decode(data: &[u8], pos: usize) -> (r: Option<(Self, usize)>)
        ensures
            r matches Some((x, end)) ==> pos <= end <= data@.len() && data@.subrange(
                pos as int,
                end as int,
            ) == Self::enc_v(x@),
            forall|v: Self::V| #[trigger]
                starts_at(data@, pos as int, Self::enc_v(v)) ==> (r matches Some((x, end)) && x@
                    == v && end as int == pos + Self::enc_v(v).len()),
    ;
}

pub open spec fn enc_items<T: Wire>(s: Seq<T::V>) -> Seq<u8>
    decreases s.len(),
{
    if s.len() == 0 {
        Seq::empty()
    } else {
        T::enc_v(s[0]) + enc_items::<T>(s.skip(1))
    }
}

pub open spec fn enc_list<T: Wire>(s: Seq<T::V>) -> Seq<u8> {
    enc_u64(s.len() as u64) + enc_items::<T>(s)
}

pub proof fn lemma_enc_items_min_len<T: Wire>(s: Seq<T::V>)
    ensures
        enc_items::<T>(s).len() >= s.len(),
    decreases s.len(),
{
    if s.len() > 0 {
        T::enc_v_min_len(s[0]);
        lemma_enc_items_min_len::<T>(s.skip(1));
    }
}

pub proof fn lemma_enc_items_push<T: Wire>(s: Seq<T::V>, x: T::V)
    ensures
        enc_items::<T>(s.push(x)) == enc_items::<T>(s) + T::enc_v(x),
    decreases s.len(),
{
    if s.len() == 0 {
        assert(s.push(x)[0] == x);
        assert(s.push(x).skip(1) =~= Seq::<T::V>::empty());
        assert(enc_items::<T>(s.push(x)) == T::enc_v(x) + enc_items::<T>(s.push(x).skip(1)));
        assert(enc_items::<T>(Seq::<T::V>::empty()) == Seq::<u8>::empty());
        assert(T::enc_v(x) + Seq::<u8>::empty() =~= Seq::<u8>::empty() + T::enc_v(x));
    } else {
        assert(s.push(x)[0] == s[0]);
        assert(s.push(x).skip(1) =~= s.skip(1).push(x));
        lemma_enc_items_push::<T>(s.skip(1), x);
        assert(enc_items::<T>(s.push(x)) == T::enc_v(s[0]) + enc_items::<T>(s.skip(1).push(x)));
        assert(enc_items::<T>(s.skip(1).push(x)) == enc_items::<T>(s.skip(1)) + T::enc_v(x));
        assert(T::enc_v(s[0]) + (enc_items::<T>(s.skip(1)) + T::enc_v(x)) =~= (T::enc_v(s[0])
            + enc_items::<T>(s.skip(1))) + T::enc_v(x));
    }
}

/// Splitting a sequence splits its item encoding.
pub proof fn lemma_enc_items_split<T: Wire>(s: Seq<T::V>, i: int)
    requires
        0 <= i <= s.len(),
    ensures
        enc_items::<T>(s) == enc_items::<T>(s.take(i)) + enc_items::<T>(s.skip(i)),
    decreases i,
{
    if i == 0 {
        assert(s.take(0) =~= Seq::<T::V>::empty());
        assert(s.skip(0) =~= s);
        assert(enc_items::<T>(s) =~= enc_items::<T>(s.take(0)) + enc_items::<T>(s.skip(0)));
    } else {
        lemma_enc_items_split::<T>(s.skip(1), i - 1);
        assert(s.skip(1).take(i - 1) =~= s.take(i).skip(1));
        assert(s.skip(1).skip(i - 1) =~= s.skip(i));
        assert(s.take(i)[0] == s[0]);
        assert(s.take(i).len() == i);
        assert(enc_items::<T>(s.take(i)) == T::enc_v(s[0]) + enc_items::<T>(s.take(i).skip(1)));
        assert(enc_items::<T>(s) =~= enc_items::<T>(s.take(i)) + enc_items::<T>(s.skip(i)));
    }
}

pub fn encode_list<T: Wire>(out: &mut Vec<u8>, items: &Vec<T>)
    ensures
        final(out)@ == old(out)@ + enc_list::<T>(views_of(items@)),
{
    let n = items.len();
    encode_u64(out, n as u64);
    let mut i: usize = 0;
    while i < n
        invariant
            i <= n,
            n == items@.len(),
            out@ == old(out)@ + enc_u64(n as u64) + enc_items::<T>(views_of(items@).take(i as int)),
        decreases n - i,
    {
        let ghost pre = views_of(items@).take(i as int);
        let it = &items[i];
        it.encode(out);
        proof {
            lemma_enc_items_push::<T>(pre, items@[i as int]@);
            assert(views_of(items@).take(i + 1 as int) =~= pre.push(items@[i as int]@));
            assert(out@ =~= old(out)@ + enc_u64(n as u64) + enc_items::<T>(
                views_of(items@).take(i + 1 as int),
            ));
        }
        i += 1;
    }
    proof {
        assert(views_of(items@).take(n as int) =~= views_of(items@));
        assert(out@ =~= old(out)@ + enc_list::<T>(views_of(items@)));
    }
}

pub fn decode_list<T: Wire>(data: &[u8], pos: usize) -> (r: Option<(Vec<T>, usize)>)
    ensures
        r matches Some((x, end)) ==> pos <= end <= data@.len() && data@.subrange(
            pos as int,
            end as int,
        ) == enc_list::<T>(views_of(x@)),
        forall|v: Seq<T::V>| #[trigger]
            starts_at(data@, pos as int, enc_list::<T>(v)) ==> (r matches Some((x, end))
                && views_of(x@) == v && end as int == pos + enc_list::<T>(v).len()),
{
    let dlen = data.len();
    proof {
        assert forall|v: Seq<T::V>| #[trigger]
            starts_at(data@, pos as int, enc_list::<T>(v)) implies starts_at(
            data@,
            pos as int,
            enc_u64(v.len() as u64),
        ) && starts_at(data@, pos + 8, enc_items::<T>(v)) && v.len() <= data@.len() by {
            lemma_starts_at_concat(data@, pos as int, enc_u64(v.len() as u64), enc_items::<T>(v));
            lemma_enc_items_min_len::<T>(v);
        }
    }
    let (count, start) = match decode_u64(data, pos) {
        None => {
            return None;
        },
        Some(p) => p,
    };
    let mut acc: Vec<T> = Vec::new();
    let mut cur = start;
    let mut i: u64 = 0;
    let ghost dv = data@;
    proof {
        assert(views_of(acc@) =~= Seq::<T::V>::empty());
        assert forall|v: Seq<T::V>| #[trigger]
            starts_at(dv, pos as int, enc_list::<T>(v)) implies v.len() == count && views_of(acc@)
            == v.take(0) && enc_items::<T>(v.take(0)).len() == 0 by {
            assert(v.len() <= dv.len() <= usize::MAX);
            assert(v.len() as u64 == count);
            assert(v.take(0) =~= Seq::<T::V>::empty());
            assert(enc_items::<T>(v.take(0)) == Seq::<u8>::empty());
        }
    }
    while i < count
        invariant
            pos + 8 == start <= cur <= dv.len(),
            dv == data@,
            i <= count,
            acc@.len() == i,
            dv.subrange(start as int, cur as int) == enc_items::<T>(views_of(acc@)),
            forall|v: Seq<T::V>| #[trigger]
                starts_at(dv, pos as int, enc_list::<T>(v)) ==> v.len() == count && views_of(acc@)
                    == v.take(i as int) && cur as int == start + enc_items::<T>(
                    v.take(i as int),
                ).len(),
        decreases count - i,
    {
        proof {
            assert forall|v: Seq<T::V>| #[trigger]
                starts_at(dv, pos as int, enc_list::<T>(v)) implies starts_at(
                dv,
                cur as int,
                T::enc_v(v[i as int]),
            ) by {
                lemma_starts_at_concat(dv, pos as int, enc_u64(v.len() as u64), enc_items::<T>(v));
                lemma_enc_items_split::<T>(v, i as int);
                lemma_starts_at_concat(
                    dv,
                    start as int,
                    enc_items::<T>(v.take(i as int)),
                    enc_items::<T>(v.skip(i as int)),
                );
                assert(v.skip(i as int)[0] == v[i as int]);
                assert(enc_items::<T>(v.skip(i as int)) == T::enc_v(v[i as int]) + enc_items::<T>(
                    v.skip(i as int).skip(1),
                ));
                lemma_starts_at_concat(
                    dv,
                    cur as int,
                    T::enc_v(v[i as int]),
                    enc_items::<T>(v.skip(i as int).skip(1)),
                );
            }
        }
        let (item, next) = match T::decode(data, cur) {
            None => {
                return None;
            },
            Some(p) => p,
        };
        proof {
            let ghost pre = views_of(acc@);
            lemma_enc_items_push::<T>(pre, item@);
            lemma_subrange_concat(dv, start as int, cur as int, next as int);
            assert(views_of(acc@.push(item)) =~= pre.push(item@));
            assert forall|v: Seq<T::V>| #[trigger]
                starts_at(dv, pos as int, enc_list::<T>(v)) implies views_of(acc@.push(item))
                == v.take(i + 1 as int) && next as int == start + enc_items::<T>(
                v.take(i + 1 as int),
            ).len() by {
                assert(starts_at(dv, cur as int, T::enc_v(v[i as int])));
                assert(item@ == v[i as int]);
                assert(v.take(i + 1 as int) =~= v.take(i as int).push(v[i as int]));
                lemma_enc_items_push::<T>(v.take(i as int), v[i as int]);
            }
        }
        acc.push(item);
        cur = next;
        i += 1;
    }
    proof {
        assert(views_of(acc@).len() as u64 == count);
        lemma_subrange_concat(dv, pos as int, start as int, cur as int);
        assert(dv.subrange(pos as int, cur as int) == enc_list::<T>(views_of(acc@)));
        assert forall|v: Seq<T::V>| #[trigger]
            starts_at(dv, pos as int, enc_list::<T>(v)) implies views_of(acc@) == v
            && cur as int == pos + enc_list::<T>(v).len() by {
            assert(v.take(i as int) =~= v);
        }
    }
    Some((acc, cur))
}

} // verus!
