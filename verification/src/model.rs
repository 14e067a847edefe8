//! The mathematical model of the varint wire format.
//!
//! Each encoded byte carries seven payload bits in its low bits; the high
//! bit is the continuation bit, set on every byte of a value but the last.
//! Values are stored least-significant group first, so a byte sequence is
//! read as a base-128 number whose digits are the payloads.

use vstd::prelude::*;

verus! {

/// The seven payload bits of an encoded byte.
pub open spec fn payload(b: u8) -> nat {
    (b % 128) as nat
}

/// Whether an encoded byte announces that more bytes of the same value follow.
pub open spec fn has_cont(b: u8) -> bool {
    b >= 128
}

/// A natural number reduced to what a 64-bit accumulator retains of it.
pub open spec fn low64(n: nat) -> nat {
    n % 0x10000000000000000
}

/// The weight of the payload at byte position `e`: 128 to the power `e`.
pub open spec fn pow128(e: nat) -> nat {
    vstd::arithmetic::power2::pow2((7 * e) as nat)
}

/// The canonical encoding of one value: its base-128 digits, least
/// significant first, with the continuation bit on every byte but the last.
pub open spec fn encode1(v: u64) -> Seq<u8>
    decreases v,
{
    if v < 128 {
        seq![v as u8]
    } else {
        seq![((v % 128) + 128) as u8].add(encode1(v / 128))
    }
}

/// The concatenation of the encodings of a sequence of values, in order.
pub open spec fn encode_seq(vs: Seq<u64>) -> Seq<u8>
    decreases vs.len(),
{
    if vs.len() == 0 {
        Seq::empty()
    } else {
        encode1(vs[0]).add(encode_seq(vs.drop_first()))
    }
}

/// The base-128 value of a whole byte sequence, continuation bits ignored.
pub open spec fn raw_val(s: Seq<u8>) -> nat
    decreases s.len(),
{
    if s.len() == 0 {
        0
    } else {
        payload(s[0]) + 128 * raw_val(s.drop_first())
    }
}

/// Decoding one value from the front of a buffer: the value read up to and
/// including the first byte without a continuation bit, and the unread
/// suffix.  `None` when every byte carries the continuation bit, the empty
/// buffer included: the input is truncated mid-value.
pub open spec fn decode1(s: Seq<u8>) -> Option<(nat, Seq<u8>)>
    decreases s.len(),
{
    if s.len() == 0 {
        None
    } else if !has_cont(s[0]) {
        Some((payload(s[0]), s.drop_first()))
    } else {
        match decode1(s.drop_first()) {
            Some((v, rest)) => Some((payload(s[0]) + 128 * v, rest)),
            None => None,
        }
    }
}

/// Decoding one value consumes at least its terminating byte, so the rest
/// is strictly shorter than the input.
pub proof fn lemma_decode1_consumes(s: Seq<u8>)
    requires
        decode1(s) is Some,
    ensures
        decode1(s)->Some_0.1.len() < s.len(),
    decreases s.len(),
{
    if has_cont(s[0]) {
        lemma_decode1_consumes(s.drop_first());
    }
}

/// Decoding values off the front of a buffer until it is exhausted.
/// The empty buffer holds no values; `None` when the buffer ends mid-value.
pub open spec fn decode_all(s: Seq<u8>) -> Option<Seq<nat>>
    decreases s.len(),
{
    if s.len() == 0 {
        Some(Seq::empty())
    } else {
        match decode1(s) {
            Some((v, rest)) => {
                proof {
                    lemma_decode1_consumes(s);
                }
                match decode_all(rest) {
                    Some(vs) => Some(seq![v].add(vs)),
                    None => None,
                }
            },
            None => None,
        }
    }
}

/// Decoding exactly `n` values off the front of a buffer: the values in
/// order and the suffix after the last of them.  `None` when the buffer
/// ends inside one of the `n` values.
pub open spec fn decode_n(s: Seq<u8>, n: nat) -> Option<(Seq<nat>, Seq<u8>)>
    decreases n,
{
    if n == 0 {
        Some((Seq::empty(), s))
    } else {
        match decode1(s) {
            Some((v, rest)) => match decode_n(rest, (n - 1) as nat) {
                Some((vs, fin)) => Some((seq![v].add(vs), fin)),
                None => None,
            },
            None => None,
        }
    }
}

/// A sequence of 64-bit values read as the natural numbers they stand for.
pub open spec fn to_nat_seq(vs: Seq<u64>) -> Seq<nat> {
    vs.map_values(|v: u64| v as nat)
}

/// The number of binary digits of a natural number; zero has none.
pub open spec fn bit_length(n: nat) -> nat
    decreases n,
{
    if n == 0 {
        0
    } else {
        (1 + bit_length(n / 2)) as nat
    }
}

} // verus!
