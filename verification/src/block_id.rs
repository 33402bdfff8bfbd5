//! Naming a block, by hash or by height.

use crate::codec::{Decode, DecodeError, Encode, MemBudget, ParseResult, Parsed};
use crate::traits::{Block as BlockT, HashOutput, NumberFor};
use vstd::laws_eq::obeys_deep_eq;
use vstd::prelude::*;
use vstd::slice::slice_subrange;
use vstd::std_specs::cmp::{PartialEqSpec, PartialEqSpecImpl};
use vstd::string::StringExecFns;

verus! {

/// The name of a block: its hash, or its height in the chain.
///
/// The id that holds the default hash names no block: it stands for the
/// state before the first one.
#[derive(Clone, Debug, Hash)]
pub enum BlockId<Block: BlockT> {
    /// The block with this hash.
    Hash(Block::Hash),
    /// The block at this height.
    Number(NumberFor<Block>),
}

impl<Block: BlockT> Copy for BlockId<Block> {

}

/// The text of a variant that holds one value: the variant's name, and the
/// text of the value in round brackets.
pub open spec fn variant_text(name: Seq<char>, inner: Seq<char>) -> Seq<char> {
    name + "("@ + inner + ")"@
}

/// The text that `Debug` gives for `value`, as `format!` renders `{:?}`.
/// Nothing is claimed of the text: each type words its own.
#[verifier::external_body]
fn debug_text<T: core::fmt::Debug>(value: &T) -> (text: String) {
    format!("{:?}", value)
}

impl<Block: BlockT> BlockId<Block> {
    /// Whether this id names the state before the first block: whether it
    /// holds the default hash.
    pub open spec fn spec_is_pre_genesis(&self) -> bool {
        match self {
            BlockId::Hash(hash) => *hash == Block::Hash::default_value(),
            BlockId::Number(_) => false,
        }
    }

    /// The id of the block with the given hash.
    pub fn hash(hash: Block::Hash) -> (id: Self)
        ensures
            id == BlockId::<Block>::Hash(hash),
    {
        BlockId::Hash(hash)
    }

    /// The id of the block at the given height.
    pub fn number(number: NumberFor<Block>) -> (id: Self)
        ensures
            id == BlockId::<Block>::Number(number),
    {
        BlockId::Number(number)
    }

    /// Whether this id names the state before the first block.
    #[verifier::when_used_as_spec(spec_is_pre_genesis)]
    pub fn is_pre_genesis(&self) -> (b: bool)
        ensures
            b == self.spec_is_pre_genesis(),
    {
        proof {
            Block::Hash::lemma_hash_output();
        }
        match self {
            BlockId::Hash(hash) => {
                let none: Block::Hash = Default::default();
                *hash == none
            },
            BlockId::Number(_) => false,
        }
    }

    /// The id of the state before the first block.
    pub fn pre_genesis() -> (id: Self)
        ensures
            id == BlockId::<Block>::Hash(Block::Hash::default_value()),
            id.is_pre_genesis(),
    {
        proof {
            Block::Hash::lemma_hash_output();
        }
        BlockId::Hash(Default::default())
    }

    /// The id in words: `Hash` or `Number`, and in round brackets the hash
    /// or the height as its own `Debug` words it.
    pub fn to_string(&self) -> (text: String)
        ensures
            match self {
                BlockId::Hash(_) => exists|inner: Seq<char>|
                    text@ == #[trigger] variant_text("Hash"@, inner),
                BlockId::Number(_) => exists|inner: Seq<char>|
                    text@ == #[trigger] variant_text("Number"@, inner),
            },
    {
        match self {
            BlockId::Hash(hash) => {
                let inner = debug_text(hash);
                let mut text = String::from_str("Hash");
                text.append("(");
                text.append(inner.as_str());
                text.append(")");
                assert(text@ == variant_text("Hash"@, inner@));
                text
            },
            BlockId::Number(number) => {
                let inner = debug_text(number);
                let mut text = String::from_str("Number");
                text.append("(");
                text.append(inner.as_str());
                text.append(")");
                assert(text@ == variant_text("Number"@, inner@));
                text
            },
        }
    }

    /// Of all ids, exactly the one that holds the default hash names the
    /// state before the first block: no height does, and no other hash.
    pub proof fn lemma_pre_genesis_is_default_hash(hash: Block::Hash, number: NumberFor<Block>)
        ensures
            BlockId::<Block>::Hash(Block::Hash::default_value()).is_pre_genesis(),
            !BlockId::<Block>::Number(number).is_pre_genesis(),
            BlockId::<Block>::Hash(hash).is_pre_genesis() <==> hash == Block::Hash::default_value(),
    {
    }
}

impl<Block: BlockT> PartialEqSpecImpl for BlockId<Block> {
    open spec fn obeys_eq_spec() -> bool {
        Block::Hash::obeys_eq_spec() && NumberFor::<Block>::obeys_eq_spec()
    }

    /// Two ids are equal when both hold the same hash, or both the same
    /// height. A hash and a height are never equal.
    open spec fn eq_spec(&self, other: &Self) -> bool {
        match (self, other) {
            (BlockId::Hash(a), BlockId::Hash(b)) => a.eq_spec(b),
            (BlockId::Number(a), BlockId::Number(b)) => a.eq_spec(b),
            _ => false,
        }
    }
}

impl<Block: BlockT> PartialEq for BlockId<Block> {
    fn eq(&self, other: &Self) -> (r: bool) {
        match (self, other) {
            (BlockId::Hash(a), BlockId::Hash(b)) => *a == *b,
            (BlockId::Number(a), BlockId::Number(b)) => *a == *b,
            _ => false,
        }
    }
}

impl<Block: BlockT> Eq for BlockId<Block> {

}

/// Where `==` on hashes and on heights decides whether two values have the
/// same model, `==` on ids does so too.
pub proof fn lemma_block_id_eq_is_model_eq<Block: BlockT>()
    requires
        obeys_deep_eq::<Block::Hash>(),
        obeys_deep_eq::<NumberFor<Block>>(),
    ensures
        obeys_deep_eq::<BlockId<Block>>(),
{
    reveal(obeys_deep_eq);
}

/// What a block id is: the model of a hash, or the model of a height.
pub enum BlockIdModel<Hash, Number> {
    Hash(Hash),
    Number(Number),
}

impl<Block: BlockT> DeepView for BlockId<Block> {
    type V = BlockIdModel<<Block::Hash as DeepView>::V, <NumberFor<Block> as DeepView>::V>;

    open spec fn deep_view(&self) -> Self::V {
        match self {
            BlockId::Hash(hash) => BlockIdModel::Hash(hash.deep_view()),
            BlockId::Number(number) => BlockIdModel::Number(number.deep_view()),
        }
    }
}

/// An id is written as one byte, `0` for a hash and `1` for a height, and
/// then the hash or the height.
impl<Block: BlockT> Encode for BlockId<Block> {
    open spec fn encodable(v: Self::V) -> bool {
        match v {
            BlockIdModel::Hash(hash) => Block::Hash::encodable(hash),
            BlockIdModel::Number(number) => NumberFor::<Block>::encodable(number),
        }
    }

    open spec fn encoding(v: Self::V) -> Seq<u8> {
        match v {
            BlockIdModel::Hash(hash) => seq![0u8] + Block::Hash::encoding(hash),
            BlockIdModel::Number(number) => seq![1u8] + NumberFor::<Block>::encoding(number),
        }
    }

    fn is_encodable(&self) -> (ok: bool) {
        match self {
            BlockId::Hash(hash) => hash.is_encodable(),
            BlockId::Number(number) => number.is_encodable(),
        }
    }

    fn encode_to(&self, dest: &mut Vec<u8>) {
        match self {
            BlockId::Hash(hash) => {
                dest.push(0);
                hash.encode_to(dest);
            },
            BlockId::Number(number) => {
                dest.push(1);
                number.encode_to(dest);
            },
        }
        assert(dest@ =~= old(dest)@ + Self::encoding(self.deep_view()));
    }
}

impl<Block: BlockT> Decode for BlockId<Block> {
    open spec fn heap_size(v: Self::V) -> nat {
        match v {
            BlockIdModel::Hash(hash) => Block::Hash::heap_size(hash),
            BlockIdModel::Number(number) => NumberFor::<Block>::heap_size(number),
        }
    }

    open spec fn parse(bytes: Seq<u8>, budget: nat) -> ParseResult<Self::V> {
        if bytes.len() < 1 {
            Err(DecodeError::Malformed)
        } else if bytes[0] == 0 {
            match Block::Hash::parse(bytes.skip(1), budget) {
                Ok(p) => Ok(
                    Parsed { value: BlockIdModel::Hash(p.value), len: 1 + p.len, mem: p.mem },
                ),
                Err(e) => Err(e),
            }
        } else if bytes[0] == 1 {
            match NumberFor::<Block>::parse(bytes.skip(1), budget) {
                Ok(p) => Ok(
                    Parsed { value: BlockIdModel::Number(p.value), len: 1 + p.len, mem: p.mem },
                ),
                Err(e) => Err(e),
            }
        } else {
            Err(DecodeError::Malformed)
        }
    }

    proof fn lemma_parse_encoding(v: Self::V, rest: Seq<u8>, budget: nat) {
        let bytes = Self::encoding(v) + rest;
        match v {
            BlockIdModel::Hash(hash) => {
                assert(bytes[0] == 0);
                assert(bytes.skip(1) =~= Block::Hash::encoding(hash) + rest);
                Block::Hash::lemma_parse_encoding(hash, rest, budget);
            },
            BlockIdModel::Number(number) => {
                assert(bytes[0] == 1);
                assert(bytes.skip(1) =~= NumberFor::<Block>::encoding(number) + rest);
                NumberFor::<Block>::lemma_parse_encoding(number, rest, budget);
            },
        }
    }

    proof fn lemma_parse_canonical(bytes: Seq<u8>, budget: nat) {
        if let Ok(p) = Self::parse(bytes, budget) {
            let tail = bytes.skip(1);
            if bytes[0] == 0 {
                Block::Hash::lemma_parse_canonical(tail, budget);
                let q = Block::Hash::parse(tail, budget).unwrap();
                assert(bytes.subrange(0, p.len as int) =~= seq![0u8] + tail.subrange(
                    0,
                    q.len as int,
                ));
            } else {
                NumberFor::<Block>::lemma_parse_canonical(tail, budget);
                let q = NumberFor::<Block>::parse(tail, budget).unwrap();
                assert(bytes.subrange(0, p.len as int) =~= seq![1u8] + tail.subrange(
                    0,
                    q.len as int,
                ));
            }
        }
    }

    fn decode(input: &[u8], budget: &mut MemBudget) -> (r: Result<(Self, usize), DecodeError>) {
        if input.len() < 1 {
            return Err(DecodeError::Malformed);
        }
        let tag = input[0];
        let rest = slice_subrange(input, 1, input.len());
        proof {
            assert(rest@ =~= input@.skip(1));
            Block::Hash::lemma_parse_canonical(rest@, budget@.remaining);
            NumberFor::<Block>::lemma_parse_canonical(rest@, budget@.remaining);
        }
        if tag == 0 {
            match Block::Hash::decode(rest, budget) {
                Ok((hash, n)) => Ok((BlockId::Hash(hash), 1 + n)),
                Err(e) => Err(e),
            }
        } else if tag == 1 {
            match NumberFor::<Block>::decode(rest, budget) {
                Ok((number, n)) => Ok((BlockId::Number(number), 1 + n)),
                Err(e) => Err(e),
            }
        } else {
            Err(DecodeError::Malformed)
        }
    }
}

} // verus!
