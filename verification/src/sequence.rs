//! Sequences: a length prefix, then the items in order.
//!
//! Reading a sequence charges the budget for all the items that the prefix
//! announces before the first of them is read, so that a short input with a
//! large count is refused for its count.

use crate::codec::{shifted, Decode, DecodeError, Encode, MemBudget, ParseResult, Parsed};
use crate::compact::{
    compact_encoding, decode_compact, encode_compact_to, lemma_compact_canonical,
    lemma_compact_round_trip, parse_compact,
};
use vstd::layout::size_of;
use vstd::prelude::*;
use vstd::slice::slice_subrange;

verus! {

/// Whether every item of `s` can be written.
pub open spec fn items_encodable<T: Encode>(s: Seq<T::V>) -> bool {
    forall|i: int| 0 <= i < s.len() ==> T::encodable(#[trigger] s[i])
}

/// The bytes of the items of `s`, one item after the other.
pub open spec fn items_encoding<T: Encode>(s: Seq<T::V>) -> Seq<u8>
    decreases s.len(),
{
    if s.len() == 0 {
        Seq::empty()
    } else {
        items_encoding::<T>(s.drop_last()) + T::encoding(s.last())
    }
}

/// The memory that reading the items of `s` charges, item by item.
pub open spec fn items_heap_size<T: Decode>(s: Seq<T::V>) -> nat
    decreases s.len(),
{
    if s.len() == 0 {
        0
    } else {
        items_heap_size::<T>(s.drop_last()) + T::heap_size(s.last())
    }
}

/// What reading `n` items in a row yields: the first failure, or all of them.
pub open spec fn parse_items<T: Decode>(bytes: Seq<u8>, n: nat, budget: nat) -> ParseResult<
    Seq<T::V>,
>
    decreases n,
{
    if n == 0 {
        Ok(Parsed { value: Seq::empty(), len: 0, mem: 0 })
    } else {
        match parse_items::<T>(bytes, (n - 1) as nat, budget) {
            Err(e) => Err(e),
            Ok(done) => match T::parse(bytes.skip(done.len as int), (budget - done.mem) as nat) {
                Err(e) => Err(e),
                Ok(item) => Ok(
                    Parsed {
                        value: done.value.push(item.value),
                        len: done.len + item.len,
                        mem: done.mem + item.mem,
                    },
                ),
            },
        }
    }
}

/// Whether the sequence can be written: its length fits the prefix, and
/// every item can be written.
pub open spec fn seq_encodable<T: Encode>(s: Seq<T::V>) -> bool {
    s.len() <= u32::MAX && items_encodable::<T>(s)
}

/// The bytes of a sequence: its length, then its items.
pub open spec fn seq_encoding<T: Encode>(s: Seq<T::V>) -> Seq<u8> {
    compact_encoding(s.len() as u32) + items_encoding::<T>(s)
}

/// The memory that reading a sequence charges: room for its items, and what
/// each item charges for itself.
pub open spec fn seq_heap_size<T: Decode>(s: Seq<T::V>) -> nat {
    s.len() * size_of::<T>() + items_heap_size::<T>(s)
}

/// What reading a sequence yields.
pub open spec fn parse_seq<T: Decode>(bytes: Seq<u8>, budget: nat) -> ParseResult<Seq<T::V>> {
    match parse_compact(bytes) {
        None => Err(DecodeError::Malformed),
        Some((n, k)) => {
            let room = n * size_of::<T>();
            if room > budget {
                Err(DecodeError::ResourceExhausted)
            } else {
                match parse_items::<T>(bytes.skip(k as int), n as nat, (budget - room) as nat) {
                    Err(e) => Err(e),
                    Ok(p) => Ok(shifted(p, k, room as nat)),
                }
            }
        },
    }
}

/// Once an item fails, reading more items fails in the same way.
pub proof fn lemma_parse_items_error_persists<T: Decode>(
    bytes: Seq<u8>,
    i: nat,
    n: nat,
    budget: nat,
)
    requires
        i <= n,
        parse_items::<T>(bytes, i, budget) is Err,
    ensures
        parse_items::<T>(bytes, n, budget) == parse_items::<T>(bytes, i, budget),
    decreases n,
{
    if i < n {
        lemma_parse_items_error_persists::<T>(bytes, i, (n - 1) as nat, budget);
    }
}

/// Items that were read are canonical: they take exactly their own bytes
/// from the input, and charge their own size.
pub proof fn lemma_parse_items_canonical<T: Decode>(bytes: Seq<u8>, n: nat, budget: nat)
    ensures
        parse_items::<T>(bytes, n, budget) matches Ok(p) ==> {
            &&& p.value.len() == n
            &&& items_encodable::<T>(p.value)
            &&& p.len <= bytes.len()
            &&& bytes.subrange(0, p.len as int) == items_encoding::<T>(p.value)
            &&& p.mem == items_heap_size::<T>(p.value)
            &&& p.mem <= budget
        },
    decreases n,
{
    if n > 0 {
        lemma_parse_items_canonical::<T>(bytes, (n - 1) as nat, budget);
        if let Ok(done) = parse_items::<T>(bytes, (n - 1) as nat, budget) {
            let tail = bytes.skip(done.len as int);
            T::lemma_parse_canonical(tail, (budget - done.mem) as nat);
            if let Ok(item) = T::parse(tail, (budget - done.mem) as nat) {
                let all = done.value.push(item.value);
                assert(all.drop_last() =~= done.value);
                assert(bytes.subrange(0, (done.len + item.len) as int) =~= bytes.subrange(
                    0,
                    done.len as int,
                ) + tail.subrange(0, item.len as int));
            }
        }
    }
}

/// Reading the items that were written gives them back, whatever follows
/// them, unless the budget is too small for them.
pub proof fn lemma_parse_items_encoding<T: Decode>(s: Seq<T::V>, rest: Seq<u8>, budget: nat)
    requires
        items_encodable::<T>(s),
    ensures
        items_heap_size::<T>(s) <= budget ==> parse_items::<T>(
            items_encoding::<T>(s) + rest,
            s.len(),
            budget,
        ) == Ok::<Parsed<Seq<T::V>>, DecodeError>(
            Parsed {
                value: s,
                len: items_encoding::<T>(s).len(),
                mem: items_heap_size::<T>(s),
            },
        ),
        items_heap_size::<T>(s) > budget ==> parse_items::<T>(
            items_encoding::<T>(s) + rest,
            s.len(),
            budget,
        ) == Err::<Parsed<Seq<T::V>>, DecodeError>(DecodeError::ResourceExhausted),
    decreases s.len(),
{
    if s.len() > 0 {
        let front = s.drop_last();
        let last = s.last();
        let bytes = items_encoding::<T>(s) + rest;
        let after = T::encoding(last) + rest;
        assert(bytes =~= items_encoding::<T>(front) + after);
        lemma_parse_items_encoding::<T>(front, after, budget);
        if items_heap_size::<T>(front) <= budget {
            let taken = items_encoding::<T>(front).len();
            let left = (budget - items_heap_size::<T>(front)) as nat;
            assert(bytes.skip(taken as int) =~= after);
            T::lemma_parse_encoding(last, rest, left);
            assert(front.push(last) =~= s);
        }
    } else {
        assert(s =~= Seq::empty());
    }
}

/// Reading the sequence that was written gives it back, whatever follows it,
/// unless the budget is too small for it.
pub proof fn lemma_parse_seq_encoding<T: Decode>(s: Seq<T::V>, rest: Seq<u8>, budget: nat)
    requires
        seq_encodable::<T>(s),
    ensures
        seq_heap_size::<T>(s) <= budget ==> parse_seq::<T>(seq_encoding::<T>(s) + rest, budget)
            == Ok::<Parsed<Seq<T::V>>, DecodeError>(
            Parsed { value: s, len: seq_encoding::<T>(s).len(), mem: seq_heap_size::<T>(s) },
        ),
        seq_heap_size::<T>(s) > budget ==> parse_seq::<T>(seq_encoding::<T>(s) + rest, budget)
            == Err::<Parsed<Seq<T::V>>, DecodeError>(DecodeError::ResourceExhausted),
{
    let n = s.len() as u32;
    let prefix = compact_encoding(n);
    let items = items_encoding::<T>(s);
    let bytes = seq_encoding::<T>(s) + rest;
    let room = n * size_of::<T>();
    assert(bytes =~= prefix + (items + rest));
    lemma_compact_round_trip(n, items + rest);
    if room <= budget {
        assert(bytes.skip(prefix.len() as int) =~= items + rest);
        lemma_parse_items_encoding::<T>(s, rest, (budget - room) as nat);
    }
}

/// A sequence that was read is canonical: it takes exactly its own bytes
/// from the input, and charges its own size.
pub proof fn lemma_parse_seq_canonical<T: Decode>(bytes: Seq<u8>, budget: nat)
    ensures
        parse_seq::<T>(bytes, budget) matches Ok(p) ==> {
            &&& seq_encodable::<T>(p.value)
            &&& p.len <= bytes.len()
            &&& bytes.subrange(0, p.len as int) == seq_encoding::<T>(p.value)
            &&& p.mem == seq_heap_size::<T>(p.value)
            &&& p.mem <= budget
        },
{
    if let Ok(p) = parse_seq::<T>(bytes, budget) {
        let (n, k) = parse_compact(bytes).unwrap();
        let room = n * size_of::<T>();
        let tail = bytes.skip(k as int);
        lemma_compact_canonical(bytes);
        lemma_parse_items_canonical::<T>(tail, n as nat, (budget - room) as nat);
        let q = parse_items::<T>(tail, n as nat, (budget - room) as nat).unwrap();
        assert(bytes.subrange(0, p.len as int) =~= bytes.subrange(0, k as int) + tail.subrange(
            0,
            q.len as int,
        ));
    }
}

/// A count that asks for more room than the budget has left is refused
/// before any item is read, however few bytes follow it.
pub proof fn lemma_parse_seq_oversized<T: Decode>(bytes: Seq<u8>, budget: nat)
    requires
        parse_compact(bytes) matches Some((n, k)) && n * size_of::<T>() > budget,
    ensures
        parse_seq::<T>(bytes, budget) == Err::<Parsed<Seq<T::V>>, DecodeError>(
            DecodeError::ResourceExhausted,
        ),
{
}

/// Whether the sequence `items` can be written.
pub fn slice_is_encodable<T: Encode>(items: &[T]) -> (ok: bool)
    ensures
        ok == seq_encodable::<T>(items.deep_view()),
{
    if items.len() > u32::MAX as usize {
        return false;
    }
    let mut i: usize = 0;
    while i < items.len()
        invariant
            i <= items@.len(),
            items@.len() <= u32::MAX,
            forall|k: int| 0 <= k < i ==> T::encodable(#[trigger] items.deep_view()[k]),
        decreases items@.len() - i,
    {
        if !items[i].is_encodable() {
            assert(!T::encodable(items.deep_view()[i as int]));
            return false;
        }
        i = i + 1;
    }
    true
}

/// Appends the bytes of the sequence `items` to `dest`.
pub fn encode_slice_to<T: Encode>(items: &[T], dest: &mut Vec<u8>)
    requires
        seq_encodable::<T>(items.deep_view()),
    ensures
        final(dest)@ == old(dest)@ + seq_encoding::<T>(items.deep_view()),
{
    let ghost start = dest@;
    let ghost model = items.deep_view();
    let n = items.len();
    encode_compact_to(n as u32, dest);
    let mut i: usize = 0;
    while i < n
        invariant
            i <= n,
            n == items@.len(),
            model == items.deep_view(),
            items_encodable::<T>(model),
            dest@ == start + compact_encoding(n as u32) + items_encoding::<T>(
                model.take(i as int),
            ),
        decreases n - i,
    {
        proof {
            let next = model.take(i + 1);
            assert(next.drop_last() =~= model.take(i as int));
            assert(next.last() == items@[i as int].deep_view());
            assert(T::encodable(model[i as int]));
        }
        items[i].encode_to(dest);
        i = i + 1;
    }
    proof {
        assert(model.take(n as int) =~= model);
        assert(dest@ =~= start + seq_encoding::<T>(model));
    }
}

/// Reads a sequence from the start of `input`, and says how many bytes it
/// took. Room for all the items that the prefix announces is charged to
/// `budget` before the first item is read.
pub fn decode_vec<T: Decode>(input: &[u8], budget: &mut MemBudget) -> (r: Result<
    (Vec<T>, usize),
    DecodeError,
>)
    ensures
        final(budget)@.limit == old(budget)@.limit,
        match parse_seq::<T>(input@, old(budget)@.remaining) {
            Ok(p) => {
                &&& r matches Ok((v, n)) && v.deep_view() == p.value && n == p.len
                &&& final(budget)@.remaining == old(budget)@.remaining - p.mem
            },
            Err(e) => {
                &&& r matches Err(err) && err == e
                &&& final(budget)@.remaining <= old(budget)@.remaining
            },
        },
{
    let before = budget.remaining();
    let (n, k) = match decode_compact(input) {
        Some(prefix) => prefix,
        None => {
            return Err(DecodeError::Malformed);
        },
    };
    proof {
        lemma_compact_canonical(input@);
    }
    let room = match (n as usize).checked_mul(core::mem::size_of::<T>()) {
        Some(room) => room,
        None => {
            return Err(DecodeError::ResourceExhausted);
        },
    };
    match budget.charge(room) {
        Ok(()) => {},
        Err(e) => {
            return Err(e);
        },
    }
    let ghost body = input@.skip(k as int);
    let ghost left = (before - room) as nat;
    let mut out: Vec<T> = Vec::new();
    let mut pos: usize = k;
    let mut i: u32 = 0;
    proof {
        assert(out.deep_view() =~= Seq::empty());
    }
    while i < n
        invariant
            i <= n,
            k <= pos <= input@.len(),
            body == input@.skip(k as int),
            budget@.limit == old(budget)@.limit,
            left + room == before,
            before == old(budget)@.remaining,
            parse_compact(input@) == Some((n, k as nat)),
            room == n * size_of::<T>(),
            parse_items::<T>(body, i as nat, left) == Ok::<Parsed<Seq<T::V>>, DecodeError>(
                Parsed {
                    value: out.deep_view(),
                    len: (pos - k) as nat,
                    mem: (left - budget@.remaining) as nat,
                },
            ),
            budget@.remaining <= left,
        decreases n - i,
    {
        let rest = slice_subrange(input, pos, input.len());
        let ghost left_now = budget@.remaining;
        let ghost done = out.deep_view();
        proof {
            assert(rest@ =~= body.skip(pos - k));
            T::lemma_parse_canonical(rest@, left_now);
        }
        match T::decode(rest, budget) {
            Err(e) => {
                proof {
                    lemma_parse_items_error_persists::<T>(body, (i + 1) as nat, n as nat, left);
                }
                return Err(e);
            },
            Ok((item, taken)) => {
                out.push(item);
                pos = pos + taken;
                i = i + 1;
                proof {
                    assert(out.deep_view() =~= done.push(item.deep_view()));
                }
            },
        }
    }
    Ok((out, pos))
}

impl<T: Encode> Encode for Vec<T> {
    open spec fn encodable(v: Seq<T::V>) -> bool {
        seq_encodable::<T>(v)
    }

    open spec fn encoding(v: Seq<T::V>) -> Seq<u8> {
        seq_encoding::<T>(v)
    }

    fn is_encodable(&self) -> (ok: bool) {
        slice_is_encodable(self.as_slice())
    }

    fn encode_to(&self, dest: &mut Vec<u8>) {
        encode_slice_to(self.as_slice(), dest)
    }
}

impl<T: Decode> Decode for Vec<T> {
    open spec fn heap_size(v: Seq<T::V>) -> nat {
        seq_heap_size::<T>(v)
    }

    open spec fn parse(bytes: Seq<u8>, budget: nat) -> ParseResult<Seq<T::V>> {
        parse_seq::<T>(bytes, budget)
    }

    proof fn lemma_parse_encoding(v: Seq<T::V>, rest: Seq<u8>, budget: nat) {
        lemma_parse_seq_encoding::<T>(v, rest, budget);
    }

    proof fn lemma_parse_canonical(bytes: Seq<u8>, budget: nat) {
        lemma_parse_seq_canonical::<T>(bytes, budget);
    }

    fn decode(input: &[u8], budget: &mut MemBudget) -> (r: Result<(Self, usize), DecodeError>) {
        decode_vec::<T>(input, budget)
    }
}

} // verus!
