//! A variable-length integer codec.
//!
//! An unsigned 64-bit value is stored as one to ten bytes, seven payload
//! bits per byte, least significant group first; the high bit of each byte
//! says whether more bytes of the same value follow.  Values are written
//! back to back with no delimiters, so a buffer of many values is decoded
//! by reading one value at a time and continuing on the rest.

#![allow(unused_imports)]
use vstd::prelude::*;

pub mod laws;
pub mod model;

verus! {

use crate::laws::{
    lemma_decode1_term, lemma_encode_seq_snoc, lemma_pow128_unfold, lemma_raw_val_bound,
    lemma_raw_val_snoc, lemma_truncated_decode_fails,
};
use crate::model::{
    decode1, decode_all, decode_n, encode1, encode_seq, has_cont, low64, payload, pow128, raw_val,
};
use vstd::arithmetic::div_mod::{
    lemma_fundamental_div_mod, lemma_mod_multiples_vanish, lemma_small_mod,
};
use vstd::arithmetic::power2::{
    lemma2_to64, lemma2_to64_rest, lemma_pow2_adds, lemma_pow2_strictly_increases, pow2,
};
use vstd::slice::{slice_index_get, slice_subrange};

/// The one way a decode can fail: the buffer ran out before a byte without
/// the continuation bit was found, so the final value is incomplete.
#[derive(Clone, Copy, Debug, PartialEq, Eq, Structural)]
pub enum DecodeError {
    TruncatedInput,
}

/// Encode a single value into its canonical varint form.
///
/// The result is the shortest encoding of `val`; zero still takes one byte.
pub fn compress(val: u64) -> (r: Vec<u8>)
    ensures
        r@ == encode1(val),
{
    if val == 0 {
        let out: Vec<u8> = vec![0u8];
        proof {
            assert(out@ =~= encode1(0));
        }
        return out;
    }

    let mut out: Vec<u8> = Vec::new();
    let mut rem: u64 = val;
    proof {
        assert(out@.add(encode1(rem)) =~= encode1(val));
    }
    while rem > 0
        invariant
            rem > 0 ==> out@.add(encode1(rem)) == encode1(val),
            rem == 0 ==> out@ == encode1(val),
        decreases rem,
    {
        let ghost out0 = out@;
        let ghost rem0 = rem;
        let low: u8 = (rem % 128) as u8;
        rem = rem / 128;
        let byte: u8 = if rem > 0 { low + 128 } else { low };
        out.push(byte);
        proof {
            if rem > 0 {
                assert(encode1(rem0) == seq![byte].add(encode1(rem)));
                assert(out@.add(encode1(rem)) =~= out0.add(encode1(rem0)));
            } else {
                assert(encode1(rem0) =~= seq![byte]);
                assert(out@ =~= out0.add(encode1(rem0)));
            }
        }
    }
    out
}

/// Encode a sequence of values into one buffer, each in its canonical form,
/// back to back with no delimiters.
pub fn compress_list(vs: &[u64]) -> (r: Vec<u8>)
    ensures
        r@ == encode_seq(vs@),
{
    let mut out: Vec<u8> = Vec::new();
    let mut i: usize = 0;
    proof {
        assert(vs@.subrange(0, 0) =~= Seq::<u64>::empty());
        assert(out@ =~= encode_seq(vs@.subrange(0, 0)));
    }
    while i < vs.len()
        invariant
            i <= vs@.len(),
            out@ == encode_seq(vs@.subrange(0, i as int)),
        decreases vs@.len() - i,
    {
        let v: u64 = *slice_index_get(vs, i);
        let mut c = compress(v);
        out.append(&mut c);
        proof {
            assert(vs@.subrange(0, i as int + 1) =~= vs@.subrange(0, i as int).push(v));
            lemma_encode_seq_snoc(vs@.subrange(0, i as int), v);
        }
        i = i + 1;
    }
    proof {
        assert(vs@.subrange(0, vs@.len() as int) =~= vs@);
    }
    out
}

/// Decode one value from the front of `data`, returning it together with the
/// unread suffix of the buffer.
///
/// The value is read up to and including the first byte without the
/// continuation bit.  Payload bits at positions 64 and above do not fit a
/// 64-bit accumulator and are dropped, so the result is the encoded number
/// reduced to its low 64 bits — the number itself for every buffer a
/// well-formed encoder produced.  When every byte of `data` carries the
/// continuation bit, the buffer ends mid-value and decoding fails.
pub fn decompress(data: &[u8]) -> (r: Result<(u64, &[u8]), DecodeError>)
    ensures
        match r {
            Ok(p) => {
                &&& decode1(data@) is Some
                &&& p.0 as nat == low64(decode1(data@)->Some_0.0)
                &&& decode1(data@)->Some_0.0 < 0x10000000000000000 ==> p.0 as nat == decode1(
                    data@,
                )->Some_0.0
                &&& p.1@ == decode1(data@)->Some_0.1
                &&& p.1@.len() < data@.len()
            },
            Err(e) => {
                &&& decode1(data@) is None
                &&& e == DecodeError::TruncatedInput
            },
        },
{
    let mut val: u64 = 0;
    let mut mult: u64 = 1;
    let mut i: usize = 0;
    proof {
        assert(data@.subrange(0, 0) =~= Seq::<u8>::empty());
        assert(raw_val(Seq::<u8>::empty()) == 0);
        lemma2_to64();
    }
    while i < data.len()
        invariant
            i <= data@.len(),
            forall|j: int| 0 <= j < i ==> has_cont(#[trigger] data@[j]),
            val as nat == low64(raw_val(data@.subrange(0, i as int))),
            i <= 9 ==> mult as nat == pow128(i as nat),
        decreases data@.len() - i,
    {
        let ghost pre = data@.subrange(0, i as int);
        let ghost raw = raw_val(pre);
        let b: u8 = *slice_index_get(data, i);
        let p: u8 = b % 128;
        let ghost raw1 = raw_val(pre.push(b));
        proof {
            assert(data@.subrange(0, i as int + 1) =~= pre.push(b));
            lemma_raw_val_snoc(pre, b);
            lemma_raw_val_bound(pre);
            lemma2_to64();
            lemma2_to64_rest();
            assert(payload(b) < 128);
        }
        if i < 9 {
            proof {
                lemma_pow128_unfold(i as nat);
                lemma_pow2_strictly_increases((7 * (i as nat)) as nat, 63);
                if i < 8 {
                    lemma_pow2_strictly_increases((7 * (i as nat + 1)) as nat, 63);
                }
                lemma_small_mod(raw, pow2(64));
                assert(raw + payload(b) * pow128(i as nat) < 128 * pow128(i as nat))
                    by (nonlinear_arith)
                    requires
                        raw < pow128(i as nat),
                        payload(b) < 128,
                ;
                lemma_small_mod(raw1, pow2(64));
            }
            val = val + (p as u64) * mult;
            mult = mult * 128;
        } else if i == 9 {
            proof {
                assert(pow128(9) == pow2(63));
                lemma_small_mod(raw, pow2(64));
                lemma_fundamental_div_mod(payload(b) as int, 2);
                assert(payload(b) * pow2(63) == (payload(b) / 2) * pow2(64) + (payload(b) % 2)
                    * pow2(63));
                assert(raw1 == pow2(64) * ((payload(b) / 2) as nat) + (raw + (payload(b) % 2)
                    * pow2(63)));
                lemma_mod_multiples_vanish(
                    (payload(b) / 2) as int,
                    (raw + (payload(b) % 2) * pow2(63)) as int,
                    pow2(64) as int,
                );
                lemma_small_mod((raw + (payload(b) % 2) * pow2(63)) as nat, pow2(64));
            }
            val = val + ((p as u64) % 2) * 0x8000000000000000u64;
        } else {
            proof {
                let k = pow2((7 * (i as nat) - 64) as nat);
                lemma_pow2_adds(64, (7 * (i as nat) - 64) as nat);
                assert(payload(b) * (pow2(64) * k) == pow2(64) * (payload(b) * k))
                    by (nonlinear_arith);
                assert(raw1 == pow2(64) * (payload(b) * k) + raw);
                lemma_mod_multiples_vanish((payload(b) * k) as int, raw as int, pow2(64) as int);
            }
        }
        proof {
            assert(val as nat == low64(raw1));
        }
        if b < 128 {
            proof {
                assert(data@[i as int] == b);
                assert(!has_cont(b));
                lemma_decode1_term(data@, i as int);
                let n = decode1(data@)->Some_0.0;
                if n < 0x10000000000000000 {
                    lemma_small_mod(n, 0x10000000000000000 as nat);
                }
            }
            let rest = slice_subrange(data, i + 1, data.len());
            return Ok((val, rest));
        }
        proof {
            assert(has_cont(data@[i as int]));
        }
        i = i + 1;
    }
    proof {
        lemma_truncated_decode_fails(data@);
    }
    Err(DecodeError::TruncatedInput)
}

/// Decode exactly `n` values from the front of `data`, returning them in
/// order together with the suffix after the last of them.
///
/// Each value is read as by [`decompress`]; decoding fails when the buffer
/// ends inside one of the `n` values.
pub fn decompress_n(data: &[u8], n: usize) -> (r: Result<(Vec<u64>, &[u8]), DecodeError>)
    ensures
        match r {
            Ok(p) => {
                &&& decode_n(data@, n as nat) is Some
                &&& p.0@.len() == n
                &&& forall|j: int|
                    0 <= j < n ==> #[trigger] p.0@[j] as nat == low64(
                        decode_n(data@, n as nat)->Some_0.0[j],
                    )
                &&& p.1@ == decode_n(data@, n as nat)->Some_0.1
            },
            Err(e) => {
                &&& decode_n(data@, n as nat) is None
                &&& e == DecodeError::TruncatedInput
            },
        },
{
    let mut out: Vec<u64> = Vec::new();
    let mut cur: &[u8] = data;
    let mut k: usize = 0;
    let ghost mut vals: Seq<nat> = Seq::empty();
    proof {
        if decode_n(data@, n as nat) is Some {
            assert(vals.add(decode_n(data@, n as nat)->Some_0.0) =~= decode_n(
                data@,
                n as nat,
            )->Some_0.0);
        }
    }
    while k < n
        invariant
            k <= n,
            out@.len() == vals.len(),
            vals.len() == k,
            forall|j: int| 0 <= j < k ==> #[trigger] out@[j] as nat == low64(vals[j]),
            decode_n(data@, n as nat) == (match decode_n(cur@, (n - k) as nat) {
                Some(p) => Some((vals.add(p.0), p.1)),
                None => None::<(Seq<nat>, Seq<u8>)>,
            }),
        decreases n - k,
    {
        match decompress(cur) {
            Ok((v, rest)) => {
                proof {
                    let nv = decode1(cur@)->Some_0.0;
                    let rs = decode1(cur@)->Some_0.1;
                    if decode_n(rs, (n - k - 1) as nat) is Some {
                        let q = decode_n(rs, (n - k - 1) as nat)->Some_0;
                        assert(vals.add(seq![nv].add(q.0)) =~= vals.push(nv).add(q.0));
                    }
                    vals = vals.push(nv);
                }
                out.push(v);
                cur = rest;
                k = k + 1;
            },
            Err(e) => {
                return Err(e);
            },
        }
    }
    proof {
        if decode_n(data@, n as nat) is Some {
            assert(vals.add(Seq::<nat>::empty()) =~= vals);
        }
    }
    Ok((out, cur))
}

/// Decode values off the front of `data` until it is exhausted, returning
/// them in order.
///
/// Each value is read as by [`decompress`].  An empty buffer holds no
/// values and gives the empty list; decoding fails when the buffer ends
/// mid-value.
pub fn decompress_list(data: &[u8]) -> (r: Result<Vec<u64>, DecodeError>)
    ensures
        match r {
            Ok(out) => {
                &&& decode_all(data@) is Some
                &&& out@.len() == decode_all(data@)->Some_0.len()
                &&& forall|j: int|
                    0 <= j < out@.len() ==> #[trigger] out@[j] as nat == low64(
                        decode_all(data@)->Some_0[j],
                    )
            },
            Err(e) => {
                &&& decode_all(data@) is None
                &&& e == DecodeError::TruncatedInput
            },
        },
{
    let mut out: Vec<u64> = Vec::new();
    let mut cur: &[u8] = data;
    let ghost mut vals: Seq<nat> = Seq::empty();
    proof {
        if decode_all(data@) is Some {
            assert(vals.add(decode_all(data@)->Some_0) =~= decode_all(data@)->Some_0);
        }
    }
    while cur.len() > 0
        invariant
            out@.len() == vals.len(),
            forall|j: int| 0 <= j < vals.len() ==> #[trigger] out@[j] as nat == low64(vals[j]),
            decode_all(data@) == (match decode_all(cur@) {
                Some(vs) => Some(vals.add(vs)),
                None => None::<Seq<nat>>,
            }),
        decreases cur@.len(),
    {
        match decompress(cur) {
            Ok((v, rest)) => {
                proof {
                    let nv = decode1(cur@)->Some_0.0;
                    let rs = decode1(cur@)->Some_0.1;
                    if decode_all(rs) is Some {
                        let vs = decode_all(rs)->Some_0;
                        assert(vals.add(seq![nv].add(vs)) =~= vals.push(nv).add(vs));
                    }
                    vals = vals.push(nv);
                }
                out.push(v);
                cur = rest;
            },
            Err(e) => {
                return Err(e);
            },
        }
    }
    proof {
        assert(decode_all(cur@) == Some(Seq::<nat>::empty()));
        assert(vals.add(Seq::<nat>::empty()) =~= vals);
    }
    Ok(out)
}

} // verus!
