//! Two values in a row: the bytes of the first, then the bytes of the second.
//!
//! Every composite of this crate is written this way, part after part, with
//! nothing in between.

use crate::codec::{Decode, DecodeError, Encode, MemBudget, ParseResult, Parsed};
use vstd::prelude::*;
use vstd::slice::slice_subrange;

verus! {

/// The bytes of `a` followed by the bytes of `b`.
pub open spec fn pair_encoding<A: Encode, B: Encode>(a: A::V, b: B::V) -> Seq<u8> {
    A::encoding(a) + B::encoding(b)
}

/// What reading an `A` and then a `B` yields: the first failure, or both.
pub open spec fn parse_pair<A: Decode, B: Decode>(bytes: Seq<u8>, budget: nat) -> ParseResult<
    (A::V, B::V),
> {
    match A::parse(bytes, budget) {
        Err(e) => Err(e),
        Ok(first) => match B::parse(bytes.skip(first.len as int), (budget - first.mem) as nat) {
            Err(e) => Err(e),
            Ok(second) => Ok(
                Parsed {
                    value: (first.value, second.value),
                    len: first.len + second.len,
                    mem: first.mem + second.mem,
                },
            ),
        },
    }
}

/// Reading the pair that was written gives it back, whatever follows it,
/// unless the budget is too small for it.
pub proof fn lemma_parse_pair_encoding<A: Decode, B: Decode>(
    a: A::V,
    b: B::V,
    rest: Seq<u8>,
    budget: nat,
)
    requires
        A::encodable(a),
        B::encodable(b),
    ensures
        A::heap_size(a) + B::heap_size(b) <= budget ==> parse_pair::<A, B>(
            pair_encoding::<A, B>(a, b) + rest,
            budget,
        ) == Ok::<Parsed<(A::V, B::V)>, DecodeError>(
            Parsed {
                value: (a, b),
                len: pair_encoding::<A, B>(a, b).len(),
                mem: A::heap_size(a) + B::heap_size(b),
            },
        ),
        A::heap_size(a) + B::heap_size(b) > budget ==> parse_pair::<A, B>(
            pair_encoding::<A, B>(a, b) + rest,
            budget,
        ) == Err::<Parsed<(A::V, B::V)>, DecodeError>(DecodeError::ResourceExhausted),
{
    let bytes = pair_encoding::<A, B>(a, b) + rest;
    let after = B::encoding(b) + rest;
    assert(bytes =~= A::encoding(a) + after);
    A::lemma_parse_encoding(a, after, budget);
    if A::heap_size(a) <= budget {
        assert(bytes.skip(A::encoding(a).len() as int) =~= after);
        B::lemma_parse_encoding(b, rest, (budget - A::heap_size(a)) as nat);
    }
}

/// A pair that was read is canonical: it takes exactly its own bytes from
/// the input, and charges its own size.
pub proof fn lemma_parse_pair_canonical<A: Decode, B: Decode>(bytes: Seq<u8>, budget: nat)
    ensures
        parse_pair::<A, B>(bytes, budget) matches Ok(p) ==> {
            &&& A::encodable(p.value.0)
            &&& B::encodable(p.value.1)
            &&& p.len <= bytes.len()
            &&& bytes.subrange(0, p.len as int) == pair_encoding::<A, B>(p.value.0, p.value.1)
            &&& p.mem == A::heap_size(p.value.0) + B::heap_size(p.value.1)
            &&& p.mem <= budget
        },
{
    A::lemma_parse_canonical(bytes, budget);
    if let Ok(first) = A::parse(bytes, budget) {
        let tail = bytes.skip(first.len as int);
        B::lemma_parse_canonical(tail, (budget - first.mem) as nat);
        if let Ok(second) = B::parse(tail, (budget - first.mem) as nat) {
            assert(bytes.subrange(0, (first.len + second.len) as int) =~= bytes.subrange(
                0,
                first.len as int,
            ) + tail.subrange(0, second.len as int));
        }
    }
}

/// Reads an `A` and then a `B` from the start of `input`, and says how many
/// bytes the two took.
pub fn decode_pair<A: Decode, B: Decode>(input: &[u8], budget: &mut MemBudget) -> (r: Result<
    ((A, B), usize),
    DecodeError,
>)
    ensures
        final(budget)@.limit == old(budget)@.limit,
        match parse_pair::<A, B>(input@, old(budget)@.remaining) {
            Ok(p) => {
                &&& r matches Ok((v, n)) && v.deep_view() == p.value && n == p.len
                &&& final(budget)@.remaining == old(budget)@.remaining - p.mem
            },
            Err(e) => {
                &&& r matches Err(err) && err == e
                &&& final(budget)@.remaining <= old(budget)@.remaining
            },
        },
{
    proof {
        A::lemma_parse_canonical(input@, budget@.remaining);
    }
    let (a, taken) = match A::decode(input, budget) {
        Ok(first) => first,
        Err(e) => {
            return Err(e);
        },
    };
    let rest = slice_subrange(input, taken, input.len());
    proof {
        assert(rest@ =~= input@.skip(taken as int));
        B::lemma_parse_canonical(rest@, budget@.remaining);
    }
    match B::decode(rest, budget) {
        Ok((b, more)) => Ok(((a, b), taken + more)),
        Err(e) => Err(e),
    }
}

} // verus!
