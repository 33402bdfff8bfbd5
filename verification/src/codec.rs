//! The byte codec shared by every type of this crate.
//!
//! A value is written as the bytes of its parts, one after the other; a
//! sequence is written as its length followed by its items. Reading is the
//! inverse, and it is bounded: every read carries a [`MemBudget`], and stops
//! as soon as the memory that the input asks for would pass its limit.

use vstd::laws_eq::obeys_deep_eq;
use vstd::prelude::*;
use vstd::std_specs::cmp::PartialEqSpec;

verus! {

/// Why a read failed.
#[derive(Debug, Clone, Copy, PartialEq, Eq, Structural)]
pub enum DecodeError {
    /// The bytes are cut short, or are not what the codec writes.
    Malformed,
    /// Reading on would take more memory than the budget allows.
    ResourceExhausted,
}

/// What a successful read yields: the value, how many bytes of the input it
/// took, and how much memory it charged.
pub struct Parsed<V> {
    pub value: V,
    pub len: nat,
    pub mem: nat,
}

/// The outcome of reading a value whose model is `V`.
pub type ParseResult<V> = Result<Parsed<V>, DecodeError>;

/// `p` with `len` more bytes taken and `mem` more memory charged before it.
pub open spec fn shifted<V>(p: Parsed<V>, len: nat, mem: nat) -> Parsed<V> {
    Parsed { value: p.value, len: len + p.len, mem: mem + p.mem }
}

/// The state of a memory budget: its limit, and what may still be charged.
pub struct BudgetView {
    pub limit: nat,
    pub remaining: nat,
}

impl BudgetView {
    /// The memory that has been charged.
    pub open spec fn used(self) -> int {
        self.limit - self.remaining
    }
}

/// The memory that one read may take. Each read has a budget of its own; no
/// two reads share one.
pub struct MemBudget {
    limit: usize,
    remaining: usize,
}

impl View for MemBudget {
    type V = BudgetView;

    closed spec fn view(&self) -> BudgetView {
        BudgetView { limit: self.limit as nat, remaining: self.remaining as nat }
    }
}

impl MemBudget {
    #[verifier::type_invariant]
    spec fn within_limit(self) -> bool {
        self.remaining <= self.limit
    }

    /// A fresh budget of `limit` bytes.
    pub fn new(limit: usize) -> (budget: Self)
        ensures
            budget@ == (BudgetView { limit: limit as nat, remaining: limit as nat }),
    {
        MemBudget { limit, remaining: limit }
    }

    /// The limit that this budget was made with.
    pub fn limit(&self) -> (limit: usize)
        ensures
            limit == self@.limit,
    {
        self.limit
    }

    /// The bytes that may still be charged.
    pub fn remaining(&self) -> (left: usize)
        ensures
            left == self@.remaining,
    {
        self.remaining
    }

    /// The bytes charged so far.
    pub fn used(&self) -> (used: usize)
        ensures
            used == self@.used(),
    {
        proof {
            use_type_invariant(self);
        }
        self.limit - self.remaining
    }

    /// Charges `size` bytes. Fails, and charges nothing, when that would pass
    /// the limit.
    pub fn charge(&mut self, size: usize) -> (r: Result<(), DecodeError>)
        ensures
            final(self)@.limit == old(self)@.limit,
            size <= old(self)@.remaining ==> r is Ok && final(self)@.remaining == old(
                self,
            )@.remaining - size,
            size > old(self)@.remaining ==> r == Err::<(), DecodeError>(
                DecodeError::ResourceExhausted,
            ) && final(self)@.remaining == old(self)@.remaining,
    {
        proof {
            use_type_invariant(&*self);
        }
        if size <= self.remaining {
            self.remaining = self.remaining - size;
            Ok(())
        } else {
            Err(DecodeError::ResourceExhausted)
        }
    }
}

/// A type that can be written as bytes.
pub trait Encode: DeepView {
    /// Whether the value can be written: that every length in it fits the
    /// length prefix.
    spec fn encodable(v: Self::V) -> bool;

    /// The canonical bytes of the value.
    spec fn encoding(v: Self::V) -> Seq<u8>;

    /// Whether `self` can be written.
    fn is_encodable(&self) -> (ok: bool)
        ensures
            ok == Self::encodable(self.deep_view()),
    ;

    /// Appends the canonical bytes of `self` to `dest`.
    fn encode_to(&self, dest: &mut Vec<u8>)
        requires
            Self::encodable(self.deep_view()),
        ensures
            final(dest)@ == old(dest)@ + Self::encoding(self.deep_view()),
    ;
}

/// A type that can be read back from its bytes, within a memory budget.
pub trait Decode: Encode + Sized {
    /// The memory that reading the value charges.
    spec fn heap_size(v: Self::V) -> nat;

    /// What reading yields at the start of `bytes` when `budget` bytes of
    /// memory may still be charged.
    spec fn parse(bytes: Seq<u8>, budget: nat) -> ParseResult<Self::V>;

    /// Reading what was written gives the value back, whatever follows it,
    /// unless the budget is too small for it.
    proof fn lemma_parse_encoding(v: Self::V, rest: Seq<u8>, budget: nat)
        requires
            Self::encodable(v),
        ensures
            Self::heap_size(v) <= budget ==> Self::parse(Self::encoding(v) + rest, budget) == Ok::<
                Parsed<Self::V>,
                DecodeError,
            >(Parsed { value: v, len: Self::encoding(v).len(), mem: Self::heap_size(v) }),
            Self::heap_size(v) > budget ==> Self::parse(Self::encoding(v) + rest, budget) == Err::<
                Parsed<Self::V>,
                DecodeError,
            >(DecodeError::ResourceExhausted),
    ;

    /// Only canonical bytes are read: a value that was read takes exactly its
    /// own encoding from the input, and charges its own size.
    proof fn lemma_parse_canonical(bytes: Seq<u8>, budget: nat)
        ensures
            Self::parse(bytes, budget) matches Ok(p) ==> {
                &&& Self::encodable(p.value)
                &&& p.len <= bytes.len()
                &&& bytes.subrange(0, p.len as int) == Self::encoding(p.value)
                &&& p.mem == Self::heap_size(p.value)
                &&& p.mem <= budget
            },
    ;

    /// Reads one value from the start of `input`, and says how many bytes it
    /// took. The memory it needs is charged to `budget`.
    fn decode(input: &[u8], budget: &mut MemBudget) -> (r: Result<(Self, usize), DecodeError>)
        ensures
            final(budget)@.limit == old(budget)@.limit,
            match Self::parse(input@, old(budget)@.remaining) {
                Ok(p) => {
                    &&& r matches Ok((v, n)) && v.deep_view() == p.value && n == p.len
                    &&& final(budget)@.remaining == old(budget)@.remaining - p.mem
                },
                Err(e) => {
                    &&& r matches Err(err) && err == e
                    &&& final(budget)@.remaining <= old(budget)@.remaining
                },
            },
    ;
}

/// Reading the bytes of a value, and nothing else, gives the value back,
/// taking all the bytes, when the limit leaves room for it.
pub proof fn lemma_round_trip<T: Decode>(v: T::V, limit: nat)
    requires
        T::encodable(v),
        T::heap_size(v) <= limit,
    ensures
        T::parse(T::encoding(v), limit) == Ok::<Parsed<T::V>, DecodeError>(
            Parsed { value: v, len: T::encoding(v).len(), mem: T::heap_size(v) },
        ),
{
    T::lemma_parse_encoding(v, Seq::empty(), limit);
    assert(T::encoding(v) + Seq::<u8>::empty() =~= T::encoding(v));
}

/// A larger budget reads what a smaller one read: raising the limit never
/// turns a value that was read into a failure, nor into another value.
pub proof fn lemma_larger_budget_reads_the_same<T: Decode>(
    bytes: Seq<u8>,
    budget: nat,
    larger: nat,
)
    requires
        budget <= larger,
        T::parse(bytes, budget) is Ok,
    ensures
        T::parse(bytes, larger) == T::parse(bytes, budget),
{
    let p = T::parse(bytes, budget).unwrap();
    T::lemma_parse_canonical(bytes, budget);
    let rest = bytes.skip(p.len as int);
    assert(bytes =~= T::encoding(p.value) + rest);
    T::lemma_parse_encoding(p.value, rest, budget);
    T::lemma_parse_encoding(p.value, rest, larger);
}

/// Two values with the same bytes are the same value.
pub proof fn lemma_encoding_injective<T: Decode>(v: T::V, w: T::V)
    requires
        T::encodable(v),
        T::encodable(w),
        T::encoding(v) == T::encoding(w),
    ensures
        v == w,
{
    let limit = T::heap_size(v) + T::heap_size(w);
    lemma_round_trip::<T>(v, limit);
    lemma_round_trip::<T>(w, limit);
}

/// Where `==` decides whether two values have the same model, two values are
/// equal exactly when they have the same bytes.
pub proof fn lemma_equal_iff_same_bytes<T: Decode + PartialEq>(x: T, y: T)
    requires
        obeys_deep_eq::<T>(),
        T::encodable(x.deep_view()),
        T::encodable(y.deep_view()),
    ensures
        x.eq_spec(&y) <==> T::encoding(x.deep_view()) == T::encoding(y.deep_view()),
{
    reveal(obeys_deep_eq);
    if T::encoding(x.deep_view()) == T::encoding(y.deep_view()) {
        lemma_encoding_injective::<T>(x.deep_view(), y.deep_view());
    }
}

/// The canonical bytes of `value`.
pub fn encode<T: Encode>(value: &T) -> (bytes: Vec<u8>)
    requires
        T::encodable(value.deep_view()),
    ensures
        bytes@ == T::encoding(value.deep_view()),
{
    let mut bytes: Vec<u8> = Vec::new();
    value.encode_to(&mut bytes);
    assert(bytes@ =~= T::encoding(value.deep_view()));
    bytes
}

/// The canonical bytes of `value`, or `None` where it cannot be written.
pub fn try_encode<T: Encode>(value: &T) -> (bytes: Option<Vec<u8>>)
    ensures
        match bytes {
            Some(bytes) => T::encodable(value.deep_view()) && bytes@ == T::encoding(
                value.deep_view(),
            ),
            None => !T::encodable(value.deep_view()),
        },
{
    if value.is_encodable() {
        Some(encode(value))
    } else {
        None
    }
}

/// Reads one value from the start of `input`, charging at most `mem_limit`
/// bytes of memory, and says how many bytes of the input it took.
pub fn decode_with_mem_limit<T: Decode>(input: &[u8], mem_limit: usize) -> (r: Result<
    (T, usize),
    DecodeError,
>)
    ensures
        match T::parse(input@, mem_limit as nat) {
            Ok(p) => r matches Ok((v, n)) && v.deep_view() == p.value && n == p.len,
            Err(e) => r matches Err(err) && err == e,
        },
{
    let mut budget = MemBudget::new(mem_limit);
    T::decode(input, &mut budget)
}

/// Reads the one value that `input` holds, charging at most `mem_limit`
/// bytes of memory. Bytes left over after the value are an error.
pub fn decode_all_with_mem_limit<T: Decode>(input: &[u8], mem_limit: usize) -> (r: Result<
    T,
    DecodeError,
>)
    ensures
        match T::parse(input@, mem_limit as nat) {
            Ok(p) => if p.len == input@.len() {
                r matches Ok(v) && v.deep_view() == p.value
            } else {
                r matches Err(err) && err == DecodeError::Malformed
            },
            Err(e) => r matches Err(err) && err == e,
        },
{
    match decode_with_mem_limit::<T>(input, mem_limit) {
        Ok((value, taken)) => {
            if taken == input.len() {
                Ok(value)
            } else {
                Err(DecodeError::Malformed)
            }
        },
        Err(e) => Err(e),
    }
}

} // verus!
