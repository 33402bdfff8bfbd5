//! The least that a header can be.

use crate::codec::{Decode, DecodeError, Encode, MemBudget, ParseResult, Parsed};
use crate::pair::{
    decode_pair, lemma_parse_pair_canonical, lemma_parse_pair_encoding, pair_encoding, parse_pair,
};
use crate::traits::{HashOutput, Header, Member};
use vstd::laws_eq::obeys_deep_eq;
use vstd::prelude::*;
use vstd::std_specs::cmp::PartialEqSpec;

verus! {

/// A header that holds only what links a block into its chain: the hash of
/// the block before it, and its own height.
#[derive(Clone, Debug, Hash)]
pub struct BareHeader<Number, Hash> {
    /// The hash of the parent block.
    pub parent_hash: Hash,
    /// The height of this block.
    pub number: Number,
}

impl<N: PartialEq, H: PartialEq> vstd::std_specs::cmp::PartialEqSpecImpl for BareHeader<N, H> {
    open spec fn obeys_eq_spec() -> bool {
        N::obeys_eq_spec() && H::obeys_eq_spec()
    }

    /// Two headers are equal when their parents and their heights are.
    open spec fn eq_spec(&self, other: &Self) -> bool {
        self.parent_hash.eq_spec(&other.parent_hash) && self.number.eq_spec(&other.number)
    }
}

impl<N: PartialEq, H: PartialEq> PartialEq for BareHeader<N, H> {
    fn eq(&self, other: &Self) -> (r: bool) {
        self.parent_hash == other.parent_hash && self.number == other.number
    }
}

impl<N: Eq, H: Eq> Eq for BareHeader<N, H> {

}

/// What a bare header is: the model of its parent hash, and of its height.
pub struct BareHeaderModel<Number, Hash> {
    pub parent_hash: Hash,
    pub number: Number,
}

/// Where `==` on heights and on hashes decides whether two values have the
/// same model, `==` on headers does so too.
pub proof fn lemma_header_eq_is_model_eq<N: PartialEq + DeepView, H: PartialEq + DeepView>()
    requires
        obeys_deep_eq::<N>(),
        obeys_deep_eq::<H>(),
    ensures
        obeys_deep_eq::<BareHeader<N, H>>(),
{
    reveal(obeys_deep_eq);
}

impl<Number: DeepView, Hash: DeepView> DeepView for BareHeader<Number, Hash> {
    type V = BareHeaderModel<Number::V, Hash::V>;

    open spec fn deep_view(&self) -> Self::V {
        BareHeaderModel {
            parent_hash: self.parent_hash.deep_view(),
            number: self.number.deep_view(),
        }
    }
}

impl<Number: Encode, Hash: Encode> Encode for BareHeader<Number, Hash> {
    open spec fn encodable(v: Self::V) -> bool {
        Hash::encodable(v.parent_hash) && Number::encodable(v.number)
    }

    open spec fn encoding(v: Self::V) -> Seq<u8> {
        pair_encoding::<Hash, Number>(v.parent_hash, v.number)
    }

    fn is_encodable(&self) -> (ok: bool) {
        self.parent_hash.is_encodable() && self.number.is_encodable()
    }

    fn encode_to(&self, dest: &mut Vec<u8>) {
        self.parent_hash.encode_to(dest);
        self.number.encode_to(dest);
        assert(dest@ =~= old(dest)@ + Self::encoding(self.deep_view()));
    }
}

impl<Number: Decode, Hash: Decode> Decode for BareHeader<Number, Hash> {
    open spec fn heap_size(v: Self::V) -> nat {
        Hash::heap_size(v.parent_hash) + Number::heap_size(v.number)
    }

    open spec fn parse(bytes: Seq<u8>, budget: nat) -> ParseResult<Self::V> {
        match parse_pair::<Hash, Number>(bytes, budget) {
            Err(e) => Err(e),
            Ok(p) => Ok(
                Parsed {
                    value: BareHeaderModel { parent_hash: p.value.0, number: p.value.1 },
                    len: p.len,
                    mem: p.mem,
                },
            ),
        }
    }

    proof fn lemma_parse_encoding(v: Self::V, rest: Seq<u8>, budget: nat) {
        lemma_parse_pair_encoding::<Hash, Number>(v.parent_hash, v.number, rest, budget);
    }

    proof fn lemma_parse_canonical(bytes: Seq<u8>, budget: nat) {
        lemma_parse_pair_canonical::<Hash, Number>(bytes, budget);
    }

    fn decode(input: &[u8], budget: &mut MemBudget) -> (r: Result<(Self, usize), DecodeError>) {
        match decode_pair::<Hash, Number>(input, budget) {
            Ok(((parent_hash, number), n)) => Ok((BareHeader { parent_hash, number }, n)),
            Err(e) => Err(e),
        }
    }
}

impl<Number: Member + Copy + Decode, Hash: HashOutput> Header for BareHeader<Number, Hash> {
    type Number = Number;

    type Hash = Hash;
}

} // verus!
