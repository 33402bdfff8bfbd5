//! A block together with the proof that it is final, where there is one.

use crate::codec::{Decode, DecodeError, Encode, MemBudget, ParseResult, Parsed};
use crate::pair::{
    decode_pair, lemma_parse_pair_canonical, lemma_parse_pair_encoding, pair_encoding, parse_pair,
};
use vstd::laws_eq::obeys_deep_eq;
use vstd::prelude::*;
use vstd::std_specs::cmp::PartialEqSpec;

verus! {

/// A proof of finality. To this crate it is bytes: it is stored and handed on,
/// and never looked into.
#[derive(Clone, Debug, Hash)]
pub struct Justifications(pub Vec<u8>);

impl vstd::std_specs::cmp::PartialEqSpecImpl for Justifications {
    open spec fn obeys_eq_spec() -> bool {
        true
    }

    /// Two proofs are equal when they hold the same bytes.
    open spec fn eq_spec(&self, other: &Justifications) -> bool {
        self.0@ == other.0@
    }
}

impl PartialEq for Justifications {
    fn eq(&self, other: &Justifications) -> (r: bool) {
        let same = self.0 == other.0;
        assert(same == (self.0@ =~= other.0@));
        same
    }
}

impl Eq for Justifications {

}

impl DeepView for Justifications {
    type V = Seq<u8>;

    open spec fn deep_view(&self) -> Seq<u8> {
        self.0.deep_view()
    }
}

impl Encode for Justifications {
    open spec fn encodable(v: Seq<u8>) -> bool {
        <Vec<u8> as Encode>::encodable(v)
    }

    open spec fn encoding(v: Seq<u8>) -> Seq<u8> {
        <Vec<u8> as Encode>::encoding(v)
    }

    fn is_encodable(&self) -> (ok: bool) {
        self.0.is_encodable()
    }

    fn encode_to(&self, dest: &mut Vec<u8>) {
        self.0.encode_to(dest)
    }
}

impl Decode for Justifications {
    open spec fn heap_size(v: Seq<u8>) -> nat {
        <Vec<u8> as Decode>::heap_size(v)
    }

    open spec fn parse(bytes: Seq<u8>, budget: nat) -> ParseResult<Seq<u8>> {
        <Vec<u8> as Decode>::parse(bytes, budget)
    }

    proof fn lemma_parse_encoding(v: Seq<u8>, rest: Seq<u8>, budget: nat) {
        <Vec<u8> as Decode>::lemma_parse_encoding(v, rest, budget);
    }

    proof fn lemma_parse_canonical(bytes: Seq<u8>, budget: nat) {
        <Vec<u8> as Decode>::lemma_parse_canonical(bytes, budget);
    }

    fn decode(input: &[u8], budget: &mut MemBudget) -> (r: Result<(Self, usize), DecodeError>) {
        match <Vec<u8> as Decode>::decode(input, budget) {
            Ok((bytes, n)) => Ok((Justifications(bytes), n)),
            Err(e) => Err(e),
        }
    }
}

/// A block and, where it has been proved final, the proof. No proof means
/// that none is attached yet, not that the block was refused.
#[derive(Clone, Debug, Hash)]
pub struct SignedBlock<Block> {
    /// The block.
    pub block: Block,
    /// The proof that the block is final.
    pub justifications: Option<Justifications>,
}

impl<B: PartialEq> vstd::std_specs::cmp::PartialEqSpecImpl for SignedBlock<B> {
    open spec fn obeys_eq_spec() -> bool {
        B::obeys_eq_spec()
    }

    /// Two signed blocks are equal when their blocks are equal and their
    /// proofs are equal, or both have none.
    open spec fn eq_spec(&self, other: &Self) -> bool {
        &&& self.block.eq_spec(&other.block)
        &&& match (self.justifications, other.justifications) {
            (None, None) => true,
            (Some(a), Some(b)) => a.0@ == b.0@,
            _ => false,
        }
    }
}

impl<B: PartialEq> PartialEq for SignedBlock<B> {
    fn eq(&self, other: &Self) -> (r: bool) {
        self.block == other.block && self.justifications == other.justifications
    }
}

impl<B: Eq> Eq for SignedBlock<B> {

}

/// `==` on proofs decides whether two proofs hold the same bytes.
pub proof fn lemma_justifications_eq_is_model_eq()
    ensures
        obeys_deep_eq::<Justifications>(),
{
    reveal(obeys_deep_eq);
    assert forall|x: Justifications, y: Justifications|
        x.eq_spec(&y) <==> x.deep_view() == y.deep_view() by {
        assert(x.deep_view() =~= x.0@);
        assert(y.deep_view() =~= y.0@);
    }
}

/// Where `==` on blocks decides whether two blocks have the same model, `==`
/// on signed blocks does so too.
pub proof fn lemma_signed_block_eq_is_model_eq<B: PartialEq + DeepView>()
    requires
        obeys_deep_eq::<B>(),
    ensures
        obeys_deep_eq::<SignedBlock<B>>(),
{
    reveal(obeys_deep_eq);
    assert forall|x: SignedBlock<B>, y: SignedBlock<B>|
        x.eq_spec(&y) <==> x.deep_view() == y.deep_view() by {
        if let Some(a) = x.justifications {
            assert(a.deep_view() =~= a.0@);
        }
        if let Some(b) = y.justifications {
            assert(b.deep_view() =~= b.0@);
        }
    }
}

/// What a signed block is: the model of its block, and the bytes of its
/// proof where it has one.
pub struct SignedBlockModel<Block> {
    pub block: Block,
    pub justifications: Option<Seq<u8>>,
}

impl<Block: DeepView> DeepView for SignedBlock<Block> {
    type V = SignedBlockModel<Block::V>;

    open spec fn deep_view(&self) -> Self::V {
        SignedBlockModel {
            block: self.block.deep_view(),
            justifications: self.justifications.deep_view(),
        }
    }
}

impl<Block: Encode> Encode for SignedBlock<Block> {
    open spec fn encodable(v: Self::V) -> bool {
        Block::encodable(v.block) && <Option<Justifications> as Encode>::encodable(
            v.justifications,
        )
    }

    open spec fn encoding(v: Self::V) -> Seq<u8> {
        pair_encoding::<Block, Option<Justifications>>(v.block, v.justifications)
    }

    fn is_encodable(&self) -> (ok: bool) {
        self.block.is_encodable() && self.justifications.is_encodable()
    }

    fn encode_to(&self, dest: &mut Vec<u8>) {
        self.block.encode_to(dest);
        self.justifications.encode_to(dest);
        assert(dest@ =~= old(dest)@ + Self::encoding(self.deep_view()));
    }
}

impl<Block: Decode> Decode for SignedBlock<Block> {
    open spec fn heap_size(v: Self::V) -> nat {
        Block::heap_size(v.block) + <Option<Justifications> as Decode>::heap_size(
            v.justifications,
        )
    }

    open spec fn parse(bytes: Seq<u8>, budget: nat) -> ParseResult<Self::V> {
        match parse_pair::<Block, Option<Justifications>>(bytes, budget) {
            Err(e) => Err(e),
            Ok(p) => Ok(
                Parsed {
                    value: SignedBlockModel { block: p.value.0, justifications: p.value.1 },
                    len: p.len,
                    mem: p.mem,
                },
            ),
        }
    }

    proof fn lemma_parse_encoding(v: Self::V, rest: Seq<u8>, budget: nat) {
        lemma_parse_pair_encoding::<Block, Option<Justifications>>(
            v.block,
            v.justifications,
            rest,
            budget,
        );
    }

    proof fn lemma_parse_canonical(bytes: Seq<u8>, budget: nat) {
        lemma_parse_pair_canonical::<Block, Option<Justifications>>(bytes, budget);
    }

    fn decode(input: &[u8], budget: &mut MemBudget) -> (r: Result<(Self, usize), DecodeError>) {
        match decode_pair::<Block, Option<Justifications>>(input, budget) {
            Ok(((block, justifications), n)) => Ok((SignedBlock { block, justifications }, n)),
            Err(e) => Err(e),
        }
    }
}

/// Reading a signed block that was written gives back both the block and
/// the proof, also where there is no proof, when the limit leaves room for
/// them; when it does not, the signed block is refused for its size.
pub proof fn lemma_signed_block_round_trip<Block: Decode>(
    block: Block::V,
    justifications: Option<Seq<u8>>,
    limit: nat,
)
    requires
        SignedBlock::<Block>::encodable(SignedBlockModel { block, justifications }),
    ensures
        ({
            let signed = SignedBlockModel { block, justifications };
            let bytes = SignedBlock::<Block>::encoding(signed);
            let size = SignedBlock::<Block>::heap_size(signed);
            SignedBlock::<Block>::parse(bytes, limit) == if size <= limit {
                Ok::<Parsed<SignedBlockModel<Block::V>>, DecodeError>(
                    Parsed { value: signed, len: bytes.len(), mem: size },
                )
            } else {
                Err::<Parsed<SignedBlockModel<Block::V>>, DecodeError>(
                    DecodeError::ResourceExhausted,
                )
            }
        }),
{
    let signed = SignedBlockModel { block, justifications };
    SignedBlock::<Block>::lemma_parse_encoding(signed, Seq::empty(), limit);
    assert(SignedBlock::<Block>::encoding(signed) + Seq::<u8>::empty()
        =~= SignedBlock::<Block>::encoding(signed));
}

} // verus!
