//! The codec of the plain values: bytes, fixed-width numbers, and values
//! that may be absent.
//!
//! A number is written in all its bytes, low byte first. A value that may be
//! absent is written as one byte, `0` for absent and `1` for present, and
//! then the value where there is one.

use crate::codec::{Decode, DecodeError, Encode, MemBudget, ParseResult, Parsed};
use crate::compact::{
    le_bytes_4, le_value_4, lemma_le_4_canonical, lemma_le_4_round_trip,
};
use vstd::arithmetic::div_mod::lemma_fundamental_div_mod_converse;
use vstd::prelude::*;
use vstd::slice::slice_subrange;

verus! {

/// The eight bytes of `x`, low byte first.
pub open spec fn le_bytes_8(x: int) -> Seq<u8> {
    le_bytes_4(x % 0x1_0000_0000) + le_bytes_4(x / 0x1_0000_0000)
}

/// The number that the first eight bytes of `b` hold, low byte first.
pub open spec fn le_value_8(b: Seq<u8>) -> int {
    le_value_4(b) + 0x1_0000_0000 * le_value_4(b.skip(4))
}

/// The eight bytes of a number below 2^64 hold that number.
pub proof fn lemma_le_8_round_trip(x: int)
    requires
        0 <= x < 0x1_0000_0000_0000_0000,
    ensures
        le_bytes_8(x).len() == 8,
        le_value_8(le_bytes_8(x)) == x,
{
    let lo = x % 0x1_0000_0000;
    let hi = x / 0x1_0000_0000;
    let b = le_bytes_8(x);
    lemma_le_4_round_trip(lo);
    lemma_le_4_round_trip(hi);
    assert(b.skip(4) =~= le_bytes_4(hi));
    assert(le_value_4(b) == le_value_4(le_bytes_4(lo))) by {
        assert(b[0] == le_bytes_4(lo)[0] && b[1] == le_bytes_4(lo)[1] && b[2] == le_bytes_4(
            lo,
        )[2] && b[3] == le_bytes_4(lo)[3]);
    }
}

/// Eight bytes are the eight bytes of the number that they hold.
pub proof fn lemma_le_8_canonical(b: Seq<u8>)
    requires
        b.len() >= 8,
    ensures
        0 <= le_value_8(b) < 0x1_0000_0000_0000_0000,
        le_bytes_8(le_value_8(b)) == b.subrange(0, 8),
{
    let lo = le_value_4(b);
    let hi = le_value_4(b.skip(4));
    let v = hi * 0x1_0000_0000 + lo;
    lemma_le_4_canonical(b);
    lemma_le_4_canonical(b.skip(4));
    assert(v == le_value_8(b));
    lemma_fundamental_div_mod_converse(v, 0x1_0000_0000, hi, lo);
    assert(le_bytes_8(v) == b.subrange(0, 4) + b.skip(4).subrange(0, 4));
    assert(b.subrange(0, 4) + b.skip(4).subrange(0, 4) =~= b.subrange(0, 8));
}

impl Encode for u8 {
    open spec fn encodable(v: u8) -> bool {
        true
    }

    fn is_encodable(&self) -> (ok: bool) {
        true
    }

    open spec fn encoding(v: u8) -> Seq<u8> {
        seq![v]
    }

    fn encode_to(&self, dest: &mut Vec<u8>) {
        dest.push(*self);
    }
}

impl Decode for u8 {
    open spec fn heap_size(v: u8) -> nat {
        0
    }

    open spec fn parse(bytes: Seq<u8>, budget: nat) -> ParseResult<u8> {
        if bytes.len() >= 1 {
            Ok(Parsed { value: bytes[0], len: 1, mem: 0 })
        } else {
            Err(DecodeError::Malformed)
        }
    }

    proof fn lemma_parse_encoding(v: u8, rest: Seq<u8>, budget: nat) {
        assert((seq![v] + rest)[0] == v);
    }

    proof fn lemma_parse_canonical(bytes: Seq<u8>, budget: nat) {
        if bytes.len() >= 1 {
            assert(bytes.subrange(0, 1) =~= seq![bytes[0]]);
        }
    }

    fn decode(input: &[u8], budget: &mut MemBudget) -> (r: Result<(Self, usize), DecodeError>) {
        if input.len() >= 1 {
            Ok((input[0], 1))
        } else {
            Err(DecodeError::Malformed)
        }
    }
}

impl Encode for u32 {
    open spec fn encodable(v: u32) -> bool {
        true
    }

    fn is_encodable(&self) -> (ok: bool) {
        true
    }

    open spec fn encoding(v: u32) -> Seq<u8> {
        le_bytes_4(v as int)
    }

    fn encode_to(&self, dest: &mut Vec<u8>) {
        let x: u32 = *self;
        dest.push((x % 256) as u8);
        dest.push((x / 256 % 256) as u8);
        dest.push((x / 256 / 256 % 256) as u8);
        dest.push((x / 256 / 256 / 256 % 256) as u8);
        assert(dest@ =~= old(dest)@ + le_bytes_4(x as int));
    }
}

/// The number in the first four bytes of `input`, low byte first.
fn read_le_4(input: &[u8]) -> (x: u32)
    requires
        input@.len() >= 4,
    ensures
        x == le_value_4(input@),
{
    input[0] as u32 + 256 * (input[1] as u32) + 65536 * (input[2] as u32) + 16777216 * (
    input[3] as u32)
}

impl Decode for u32 {
    open spec fn heap_size(v: u32) -> nat {
        0
    }

    open spec fn parse(bytes: Seq<u8>, budget: nat) -> ParseResult<u32> {
        if bytes.len() >= 4 {
            Ok(Parsed { value: le_value_4(bytes) as u32, len: 4, mem: 0 })
        } else {
            Err(DecodeError::Malformed)
        }
    }

    proof fn lemma_parse_encoding(v: u32, rest: Seq<u8>, budget: nat) {
        let e = le_bytes_4(v as int);
        let bytes = e + rest;
        lemma_le_4_round_trip(v as int);
        assert(bytes[0] == e[0] && bytes[1] == e[1] && bytes[2] == e[2] && bytes[3] == e[3]);
    }

    proof fn lemma_parse_canonical(bytes: Seq<u8>, budget: nat) {
        if bytes.len() >= 4 {
            lemma_le_4_canonical(bytes);
        }
    }

    fn decode(input: &[u8], budget: &mut MemBudget) -> (r: Result<(Self, usize), DecodeError>) {
        if input.len() >= 4 {
            Ok((read_le_4(input), 4))
        } else {
            Err(DecodeError::Malformed)
        }
    }
}

impl Encode for u64 {
    open spec fn encodable(v: u64) -> bool {
        true
    }

    fn is_encodable(&self) -> (ok: bool) {
        true
    }

    open spec fn encoding(v: u64) -> Seq<u8> {
        le_bytes_8(v as int)
    }

    fn encode_to(&self, dest: &mut Vec<u8>) {
        let lo: u32 = (*self % 0x1_0000_0000) as u32;
        let hi: u32 = (*self / 0x1_0000_0000) as u32;
        lo.encode_to(dest);
        hi.encode_to(dest);
        assert(dest@ =~= old(dest)@ + le_bytes_8(*self as int));
    }
}

impl Decode for u64 {
    open spec fn heap_size(v: u64) -> nat {
        0
    }

    open spec fn parse(bytes: Seq<u8>, budget: nat) -> ParseResult<u64> {
        if bytes.len() >= 8 {
            Ok(Parsed { value: le_value_8(bytes) as u64, len: 8, mem: 0 })
        } else {
            Err(DecodeError::Malformed)
        }
    }

    proof fn lemma_parse_encoding(v: u64, rest: Seq<u8>, budget: nat) {
        let e = le_bytes_8(v as int);
        let bytes = e + rest;
        lemma_le_8_round_trip(v as int);
        assert(bytes[0] == e[0] && bytes[1] == e[1] && bytes[2] == e[2] && bytes[3] == e[3]);
        assert(bytes.skip(4)[0] == e.skip(4)[0] && bytes.skip(4)[1] == e.skip(4)[1]
            && bytes.skip(4)[2] == e.skip(4)[2] && bytes.skip(4)[3] == e.skip(4)[3]);
    }

    proof fn lemma_parse_canonical(bytes: Seq<u8>, budget: nat) {
        if bytes.len() >= 8 {
            lemma_le_8_canonical(bytes);
        }
    }

    fn decode(input: &[u8], budget: &mut MemBudget) -> (r: Result<(Self, usize), DecodeError>) {
        if input.len() >= 8 {
            let lo = read_le_4(input);
            let hi = read_le_4(slice_subrange(input, 4, input.len()));
            proof {
                assert(input@.subrange(4, input@.len() as int) =~= input@.skip(4));
            }
            Ok((lo as u64 + 0x1_0000_0000 * (hi as u64), 8))
        } else {
            Err(DecodeError::Malformed)
        }
    }
}

impl<T: Encode> Encode for Option<T> {
    open spec fn encodable(v: Option<T::V>) -> bool {
        match v {
            None => true,
            Some(x) => T::encodable(x),
        }
    }

    open spec fn encoding(v: Option<T::V>) -> Seq<u8> {
        match v {
            None => seq![0u8],
            Some(x) => seq![1u8] + T::encoding(x),
        }
    }

    fn is_encodable(&self) -> (ok: bool) {
        match self {
            None => true,
            Some(x) => x.is_encodable(),
        }
    }

    fn encode_to(&self, dest: &mut Vec<u8>) {
        match self {
            None => {
                dest.push(0);
                assert(dest@ =~= old(dest)@ + seq![0u8]);
            },
            Some(x) => {
                dest.push(1);
                x.encode_to(dest);
                assert(dest@ =~= old(dest)@ + (seq![1u8] + T::encoding(x.deep_view())));
            },
        }
    }
}

impl<T: Decode> Decode for Option<T> {
    open spec fn heap_size(v: Option<T::V>) -> nat {
        match v {
            None => 0,
            Some(x) => T::heap_size(x),
        }
    }

    open spec fn parse(bytes: Seq<u8>, budget: nat) -> ParseResult<Option<T::V>> {
        if bytes.len() < 1 {
            Err(DecodeError::Malformed)
        } else if bytes[0] == 0 {
            Ok(Parsed { value: None, len: 1, mem: 0 })
        } else if bytes[0] == 1 {
            match T::parse(bytes.skip(1), budget) {
                Ok(p) => Ok(Parsed { value: Some(p.value), len: 1 + p.len, mem: p.mem }),
                Err(e) => Err(e),
            }
        } else {
            Err(DecodeError::Malformed)
        }
    }

    proof fn lemma_parse_encoding(v: Option<T::V>, rest: Seq<u8>, budget: nat) {
        let bytes = Self::encoding(v) + rest;
        match v {
            None => {
                assert(bytes[0] == 0);
            },
            Some(x) => {
                assert(bytes[0] == 1);
                assert(bytes.skip(1) =~= T::encoding(x) + rest);
                T::lemma_parse_encoding(x, rest, budget);
            },
        }
    }

    proof fn lemma_parse_canonical(bytes: Seq<u8>, budget: nat) {
        if let Ok(p) = Self::parse(bytes, budget) {
            if bytes[0] == 0 {
                assert(bytes.subrange(0, 1) =~= seq![0u8]);
            } else {
                let tail = bytes.skip(1);
                T::lemma_parse_canonical(tail, budget);
                let q = T::parse(tail, budget).unwrap();
                assert(bytes.subrange(0, p.len as int) =~= seq![1u8] + tail.subrange(
                    0,
                    q.len as int,
                ));
            }
        }
    }

    fn decode(input: &[u8], budget: &mut MemBudget) -> (r: Result<(Self, usize), DecodeError>) {
        if input.len() < 1 {
            return Err(DecodeError::Malformed);
        }
        let tag = input[0];
        if tag == 0 {
            Ok((None, 1))
        } else if tag == 1 {
            let rest = slice_subrange(input, 1, input.len());
            proof {
                assert(rest@ =~= input@.skip(1));
                T::lemma_parse_canonical(rest@, budget@.remaining);
            }
            match T::decode(rest, budget) {
                Ok((x, n)) => Ok((Some(x), 1 + n)),
                Err(e) => Err(e),
            }
        } else {
            Err(DecodeError::Malformed)
        }
    }
}

} // verus!
