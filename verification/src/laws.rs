//! The properties of the codec, stated and proved against the model.

use vstd::prelude::*;

verus! {

use crate::model::{
    bit_length, decode1, decode_all, decode_n, encode1, encode_seq, has_cont, low64, payload,
    pow128, raw_val, to_nat_seq,
};
use vstd::arithmetic::div_mod::{lemma_div_denominator, lemma_div_plus_one};
use vstd::arithmetic::power2::{lemma2_to64, lemma_pow2_adds, lemma_pow2_unfold, pow2};

/// One more byte multiplies the weight of the positions above it by 128.
pub(crate) proof fn lemma_pow128_unfold(e: nat)
    ensures
        pow128(e + 1) == 128 * pow128(e),
{
    lemma_pow2_adds((7 * e) as nat, 7);
    lemma2_to64();
}

/// The base-128 value of a sequence is below the weight of the position
/// just past its end.
pub(crate) proof fn lemma_raw_val_bound(s: Seq<u8>)
    ensures
        raw_val(s) < pow128(s.len()),
    decreases s.len(),
{
    if s.len() == 0 {
        lemma2_to64();
    } else {
        lemma_raw_val_bound(s.drop_first());
        lemma_pow128_unfold(s.drop_first().len());
    }
}

/// Appending a byte adds its payload at the weight of the new position.
pub(crate) proof fn lemma_raw_val_snoc(s: Seq<u8>, b: u8)
    ensures
        raw_val(s.push(b)) == raw_val(s) + payload(b) * pow128(s.len()),
    decreases s.len(),
{
    if s.len() == 0 {
        assert(s.push(b) =~= seq![b]);
        assert(seq![b].drop_first() =~= Seq::<u8>::empty());
        assert(raw_val(Seq::<u8>::empty()) == 0);
        lemma2_to64();
        assert(pow128(s.len()) == 1);
        assert(raw_val(s.push(b)) == payload(b));
    } else {
        let t = s.drop_first();
        lemma_raw_val_snoc(t, b);
        lemma_pow128_unfold(t.len());
        assert(s.push(b).drop_first() =~= t.push(b));
        assert(raw_val(s.push(b)) == payload(s[0]) + 128 * raw_val(t.push(b)));
        assert(raw_val(s) == payload(s[0]) + 128 * raw_val(t));
        assert(128 * (raw_val(t) + payload(b) * pow128(t.len())) == 128 * raw_val(t) + payload(
            b,
        ) * (128 * pow128(t.len()))) by (nonlinear_arith);
        assert(pow128(s.len()) == 128 * pow128(t.len()));
    }
}

/// Encoding one more value appends its bytes after those of the values
/// before it.
pub(crate) proof fn lemma_encode_seq_snoc(vs: Seq<u64>, x: u64)
    ensures
        encode_seq(vs.push(x)) == encode_seq(vs).add(encode1(x)),
    decreases vs.len(),
{
    if vs.len() == 0 {
        assert(vs.push(x) =~= seq![x]);
        assert(seq![x].drop_first() =~= Seq::<u64>::empty());
        assert(encode_seq(Seq::<u64>::empty()) == Seq::<u8>::empty());
        assert(encode_seq(vs.push(x)) =~= encode1(x));
        assert(encode_seq(vs).add(encode1(x)) =~= encode1(x));
    } else {
        let t = vs.drop_first();
        lemma_encode_seq_snoc(t, x);
        assert(vs.push(x).drop_first() =~= t.push(x));
        assert(encode1(vs[0]).add(encode_seq(t).add(encode1(x))) =~= (encode1(vs[0]).add(
            encode_seq(t),
        )).add(encode1(x)));
    }
}

/// When the first byte without a continuation bit stands at position `k`,
/// decoding reads exactly the bytes up to and including it, as a base-128
/// number, and leaves the suffix untouched.
pub(crate) proof fn lemma_decode1_term(s: Seq<u8>, k: int)
    requires
        0 <= k < s.len(),
        forall|j: int| 0 <= j < k ==> has_cont(#[trigger] s[j]),
        !has_cont(s[k]),
    ensures
        decode1(s) == Some((raw_val(s.subrange(0, k + 1)), s.subrange(k + 1, s.len() as int))),
    decreases k,
{
    if k == 0 {
        assert(s.subrange(0, 1) =~= seq![s[0]]);
        assert(seq![s[0]].drop_first() =~= Seq::<u8>::empty());
        assert(raw_val(Seq::<u8>::empty()) == 0);
        assert(raw_val(s.subrange(0, 1)) == payload(s[0]));
        assert(s.subrange(1, s.len() as int) =~= s.drop_first());
    } else {
        let t = s.drop_first();
        assert forall|j: int| 0 <= j < k - 1 implies has_cont(#[trigger] t[j]) by {
            assert(t[j] == s[j + 1]);
        }
        lemma_decode1_term(t, k - 1);
        assert(s.subrange(0, k + 1).drop_first() =~= t.subrange(0, k));
        assert(s.subrange(k + 1, s.len() as int) =~= t.subrange(k, t.len() as int));
    }
}

/// A buffer whose every byte carries the continuation bit never finishes a
/// value: decoding it fails, whatever the bytes hold.
pub proof fn lemma_truncated_decode_fails(s: Seq<u8>)
    requires
        forall|j: int| 0 <= j < s.len() ==> has_cont(#[trigger] s[j]),
    ensures
        decode1(s) is None,
    decreases s.len(),
{
    if s.len() > 0 {
        let t = s.drop_first();
        assert forall|j: int| 0 <= j < t.len() implies has_cont(#[trigger] t[j]) by {
            assert(t[j] == s[j + 1]);
        }
        lemma_truncated_decode_fails(t);
    }
}

/// Whatever follows an encoded value is handed back untouched: decoding
/// `encode1(v)` with any suffix appended yields `v` and that suffix.
pub proof fn lemma_rest_correct(v: u64, extra: Seq<u8>)
    ensures
        decode1(encode1(v).add(extra)) == Some((v as nat, extra)),
    decreases v,
{
    let s = encode1(v).add(extra);
    if v < 128 {
        assert(s.drop_first() =~= extra);
    } else {
        lemma_rest_correct(v / 128, extra);
        assert(s.drop_first() =~= encode1(v / 128).add(extra));
        vstd::arithmetic::div_mod::lemma_fundamental_div_mod(v as int, 128);
    }
}

/// Encoding then decoding one value gives the value back with nothing left.
pub proof fn lemma_round_trip(v: u64)
    ensures
        decode1(encode1(v)) == Some((v as nat, Seq::<u8>::empty())),
{
    lemma_rest_correct(v, Seq::empty());
    assert(encode1(v).add(Seq::<u8>::empty()) =~= encode1(v));
}

/// A number below `2^k` has at most `k` binary digits.
pub(crate) proof fn lemma_bit_length_le(n: nat, k: nat)
    requires
        n < pow2(k),
    ensures
        bit_length(n) <= k,
    decreases k,
{
    if n > 0 {
        lemma2_to64();
        lemma_pow2_unfold(k);
        lemma_bit_length_le(n / 2, (k - 1) as nat);
    }
}

/// A positive number has at least one binary digit.
pub(crate) proof fn lemma_bit_length_pos(n: nat)
    requires
        n >= 1,
    ensures
        bit_length(n) >= 1,
{
}

/// Dropping the low seven bits of a number of at least eight bits drops
/// exactly seven of its binary digits.
pub(crate) proof fn lemma_bit_length_div128(n: nat)
    requires
        n >= 128,
    ensures
        bit_length(n) == 7 + bit_length(n / 128),
{
    lemma_div_denominator(n as int, 2, 2);
    lemma_div_denominator(n as int, 4, 2);
    lemma_div_denominator(n as int, 8, 2);
    lemma_div_denominator(n as int, 16, 2);
    lemma_div_denominator(n as int, 32, 2);
    lemma_div_denominator(n as int, 64, 2);
    assert(bit_length(n) == 1 + bit_length(n / 2));
    assert(bit_length(n / 2) == 1 + bit_length(n / 4));
    assert(bit_length(n / 4) == 1 + bit_length(n / 8));
    assert(bit_length(n / 8) == 1 + bit_length(n / 16));
    assert(bit_length(n / 16) == 1 + bit_length(n / 32));
    assert(bit_length(n / 32) == 1 + bit_length(n / 64));
    assert(bit_length(n / 64) == 1 + bit_length(n / 128));
}

/// The encoding is minimal: its length is the number of seven-bit groups
/// the value's binary digits fill, rounded up, and at least one.
pub proof fn lemma_minimal_length(v: u64)
    ensures
        encode1(v).len() == vstd::math::max(1, (bit_length(v as nat) + 6) as int / 7),
    decreases v,
{
    if v == 0 {
    } else if v < 128 {
        lemma2_to64();
        lemma_bit_length_le(v as nat, 7);
        lemma_bit_length_pos(v as nat);
    } else {
        lemma_minimal_length(v / 128);
        lemma_bit_length_div128(v as nat);
        lemma_bit_length_pos((v / 128) as nat);
        lemma_div_plus_one((bit_length((v / 128) as nat) + 6) as int, 7);
    }
}

/// Encoding a list of values and decoding the buffer back gives the same
/// list, with nothing skipped and nothing left over.
pub proof fn lemma_list_round_trip(vs: Seq<u64>)
    ensures
        decode_all(encode_seq(vs)) == Some(to_nat_seq(vs)),
    decreases vs.len(),
{
    if vs.len() == 0 {
        assert(to_nat_seq(vs) =~= Seq::<nat>::empty());
    } else {
        let t = vs.drop_first();
        lemma_list_round_trip(t);
        lemma_rest_correct(vs[0], encode_seq(t));
        assert(encode_seq(vs).len() > 0);
        assert(seq![vs[0] as nat].add(to_nat_seq(t)) =~= to_nat_seq(vs));
    }
}

/// Decoding a fixed count of values from a buffer that encodes exactly that
/// many gives those values back and leaves nothing.
pub proof fn lemma_fixed_count_round_trip(vs: Seq<u64>)
    ensures
        decode_n(encode_seq(vs), vs.len()) == Some((to_nat_seq(vs), Seq::<u8>::empty())),
{
    lemma_decode_n_encode(vs, Seq::empty());
    assert(encode_seq(vs).add(Seq::<u8>::empty()) =~= encode_seq(vs));
}

/// Decoding as many values as a buffer prefix encodes consumes exactly that
/// prefix, whatever follows it.
pub(crate) proof fn lemma_decode_n_encode(vs: Seq<u64>, extra: Seq<u8>)
    ensures
        decode_n(encode_seq(vs).add(extra), vs.len()) == Some((to_nat_seq(vs), extra)),
    decreases vs.len(),
{
    if vs.len() == 0 {
        assert(encode_seq(vs).add(extra) =~= extra);
        assert(to_nat_seq(vs) =~= Seq::<nat>::empty());
    } else {
        let t = vs.drop_first();
        lemma_decode_n_encode(t, extra);
        lemma_rest_correct(vs[0], encode_seq(t).add(extra));
        assert(encode_seq(vs).add(extra) =~= encode1(vs[0]).add(encode_seq(t).add(extra)));
        assert(seq![vs[0] as nat].add(to_nat_seq(t)) =~= to_nat_seq(vs));
    }
}

} // verus!
