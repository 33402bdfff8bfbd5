//! A 256-bit hash value.

use crate::codec::{Decode, DecodeError, Encode, MemBudget, ParseResult, Parsed};
use crate::traits::HashOutput;
use vstd::laws_eq::obeys_deep_eq;
use vstd::prelude::*;
use vstd::std_specs::cmp::PartialEqSpec;

verus! {

/// Thirty-two bytes that name a block. All zero by default.
#[derive(Clone, Copy, Debug, Hash)]
pub struct H256(pub [u8; 32]);

impl DeepView for H256 {
    type V = Seq<u8>;

    open spec fn deep_view(&self) -> Seq<u8> {
        self.0@
    }
}

impl vstd::std_specs::cmp::PartialEqSpecImpl for H256 {
    open spec fn obeys_eq_spec() -> bool {
        true
    }

    open spec fn eq_spec(&self, other: &H256) -> bool {
        self.0@ == other.0@
    }
}

impl PartialEq for H256 {
    fn eq(&self, other: &H256) -> (r: bool) {
        let mut i: usize = 0;
        while i < 32
            invariant
                i <= 32,
                forall|j: int| 0 <= j < i ==> self.0@[j] == other.0@[j],
            decreases 32 - i,
        {
            if self.0[i] != other.0[i] {
                return false;
            }
            i = i + 1;
        }
        assert(self.0@ =~= other.0@);
        true
    }
}

impl Eq for H256 {

}

impl Default for H256 {
    fn default() -> (h: H256)
        ensures
            h == H256::zero(),
    {
        H256([0u8; 32])
    }
}

impl H256 {
    /// The hash whose bytes are all zero.
    pub open spec fn zero() -> H256 {
        H256(vstd::array::spec_array_fill_for_copy_type::<u8, 32>(0u8))
    }
}

impl HashOutput for H256 {
    open spec fn default_value() -> H256 {
        H256::zero()
    }

    proof fn lemma_hash_output() {
        assert forall|a: H256, b: H256| #[trigger] a.eq_spec(&b) <==> (a == b) by {
            if a.0@ == b.0@ {
                assert(a.0 =~= b.0);
            }
        }
    }
}

/// `==` on hashes decides whether two hashes have the same bytes.
pub proof fn lemma_hash_eq_is_model_eq()
    ensures
        obeys_deep_eq::<H256>(),
{
    reveal(obeys_deep_eq);
}

impl Encode for H256 {
    open spec fn encodable(v: Seq<u8>) -> bool {
        v.len() == 32
    }

    open spec fn encoding(v: Seq<u8>) -> Seq<u8> {
        v
    }

    fn is_encodable(&self) -> (ok: bool) {
        true
    }

    fn encode_to(&self, dest: &mut Vec<u8>) {
        let mut i: usize = 0;
        while i < 32
            invariant
                i <= 32,
                dest@ == old(dest)@ + self.0@.take(i as int),
            decreases 32 - i,
        {
            dest.push(self.0[i]);
            assert(self.0@.take(i + 1) =~= self.0@.take(i as int).push(self.0@[i as int]));
            i = i + 1;
        }
        assert(self.0@.take(32) =~= self.0@);
    }
}

impl Decode for H256 {
    open spec fn heap_size(v: Seq<u8>) -> nat {
        0
    }

    open spec fn parse(bytes: Seq<u8>, budget: nat) -> ParseResult<Seq<u8>> {
        if bytes.len() >= 32 {
            Ok(Parsed { value: bytes.subrange(0, 32), len: 32, mem: 0 })
        } else {
            Err(DecodeError::Malformed)
        }
    }

    proof fn lemma_parse_encoding(v: Seq<u8>, rest: Seq<u8>, budget: nat) {
        assert((v + rest).subrange(0, 32) =~= v);
    }

    proof fn lemma_parse_canonical(bytes: Seq<u8>, budget: nat) {
    }

    fn decode(input: &[u8], budget: &mut MemBudget) -> (r: Result<(Self, usize), DecodeError>) {
        if input.len() < 32 {
            return Err(DecodeError::Malformed);
        }
        let mut bytes: [u8; 32] = [0u8; 32];
        let mut i: usize = 0;
        while i < 32
            invariant
                i <= 32,
                input@.len() >= 32,
                forall|j: int| 0 <= j < i ==> bytes@[j] == input@[j],
            decreases 32 - i,
        {
            bytes[i] = input[i];
            i = i + 1;
        }
        assert(bytes@ =~= input@.subrange(0, 32));
        Ok((H256(bytes), 32))
    }
}

} // verus!
