//! A block: a header and its extrinsics.

use crate::codec::{
    lemma_encoding_injective, Decode, DecodeError, Encode, MemBudget, ParseResult, Parsed,
};
use crate::compact::parse_compact;
use crate::pair::{
    decode_pair, lemma_parse_pair_canonical, lemma_parse_pair_encoding, pair_encoding, parse_pair,
};
use crate::sequence::{encode_slice_to, seq_encodable, seq_heap_size, slice_is_encodable};
use crate::traits::{deep_seq, Header as HeaderT, Member};
use vstd::laws_eq::obeys_deep_eq;
use vstd::layout::size_of;
use vstd::prelude::*;
use vstd::std_specs::cmp::PartialEqSpec;

verus! {

/// A header and the extrinsics that run under it, in the order in which they
/// run. Two blocks with the same extrinsics in another order are two blocks.
#[derive(Clone, Debug, Hash)]
pub struct Block<Header, Extrinsic> {
    /// The block's header.
    pub header: Header,
    /// The block's extrinsics, in the order in which they run.
    pub extrinsics: Vec<Extrinsic>,
}

/// What a block is: its header and the sequence of its extrinsics.
pub struct BlockModel<Header, Extrinsic> {
    pub header: Header,
    pub extrinsics: Seq<Extrinsic>,
}

impl<Header, Extrinsic> Block<Header, Extrinsic> {
    /// The block made of these parts.
    pub open spec fn from_parts(header: Header, extrinsics: Vec<Extrinsic>) -> Self {
        Block { header, extrinsics }
    }

    /// The parts that the block is made of.
    pub open spec fn parts(self) -> (Header, Vec<Extrinsic>) {
        (self.header, self.extrinsics)
    }

    /// Taking apart the block made of two parts gives the two parts back, and
    /// the block made of the parts of a block is that block.
    pub proof fn lemma_deconstruct_inverts_new(
        header: Header,
        extrinsics: Vec<Extrinsic>,
        block: Self,
    )
        ensures
            Self::from_parts(header, extrinsics).parts() == (header, extrinsics),
            Self::from_parts(block.parts().0, block.parts().1) == block,
    {
    }
}

impl<H: PartialEq, E: PartialEq> vstd::std_specs::cmp::PartialEqSpecImpl for Block<H, E> {
    open spec fn obeys_eq_spec() -> bool {
        H::obeys_eq_spec() && E::obeys_eq_spec()
    }

    /// Two blocks are equal when their headers are equal and their
    /// extrinsics are equal one by one, in order.
    open spec fn eq_spec(&self, other: &Self) -> bool {
        &&& self.header.eq_spec(&other.header)
        &&& self.extrinsics@.len() == other.extrinsics@.len()
        &&& forall|i: int|
            0 <= i < self.extrinsics@.len() ==> #[trigger] self.extrinsics@[i].eq_spec(
                &other.extrinsics@[i],
            )
    }
}

impl<H: PartialEq, E: PartialEq> PartialEq for Block<H, E> {
    fn eq(&self, other: &Self) -> (r: bool) {
        self.header == other.header && self.extrinsics == other.extrinsics
    }
}

impl<H: Eq, E: Eq> Eq for Block<H, E> {

}

impl<Header: DeepView, Extrinsic: DeepView> DeepView for Block<Header, Extrinsic> {
    type V = BlockModel<Header::V, Extrinsic::V>;

    open spec fn deep_view(&self) -> Self::V {
        BlockModel {
            header: self.header.deep_view(),
            extrinsics: self.extrinsics.deep_view(),
        }
    }
}

impl<Header: Encode, Extrinsic: Encode> Encode for Block<Header, Extrinsic> {
    open spec fn encodable(v: Self::V) -> bool {
        Header::encodable(v.header) && seq_encodable::<Extrinsic>(v.extrinsics)
    }

    open spec fn encoding(v: Self::V) -> Seq<u8> {
        pair_encoding::<Header, Vec<Extrinsic>>(v.header, v.extrinsics)
    }

    fn is_encodable(&self) -> (ok: bool) {
        self.header.is_encodable() && slice_is_encodable(self.extrinsics.as_slice())
    }

    fn encode_to(&self, dest: &mut Vec<u8>) {
        self.header.encode_to(dest);
        encode_slice_to(self.extrinsics.as_slice(), dest);
        assert(dest@ =~= old(dest)@ + Self::encoding(self.deep_view()));
    }
}

impl<Header: Decode, Extrinsic: Decode> Decode for Block<Header, Extrinsic> {
    open spec fn heap_size(v: Self::V) -> nat {
        Header::heap_size(v.header) + seq_heap_size::<Extrinsic>(v.extrinsics)
    }

    open spec fn parse(bytes: Seq<u8>, budget: nat) -> ParseResult<Self::V> {
        match parse_pair::<Header, Vec<Extrinsic>>(bytes, budget) {
            Err(e) => Err(e),
            Ok(p) => Ok(
                Parsed {
                    value: BlockModel { header: p.value.0, extrinsics: p.value.1 },
                    len: p.len,
                    mem: p.mem,
                },
            ),
        }
    }

    proof fn lemma_parse_encoding(v: Self::V, rest: Seq<u8>, budget: nat) {
        lemma_parse_pair_encoding::<Header, Vec<Extrinsic>>(v.header, v.extrinsics, rest, budget);
    }

    proof fn lemma_parse_canonical(bytes: Seq<u8>, budget: nat) {
        lemma_parse_pair_canonical::<Header, Vec<Extrinsic>>(bytes, budget);
    }

    fn decode(input: &[u8], budget: &mut MemBudget) -> (r: Result<(Self, usize), DecodeError>) {
        match decode_pair::<Header, Vec<Extrinsic>>(input, budget) {
            Ok(((header, extrinsics), n)) => Ok((Block { header, extrinsics }, n)),
            Err(e) => Err(e),
        }
    }
}

impl<Header: HeaderT, Extrinsic: Member + Decode> crate::traits::Block for Block<Header, Extrinsic> {
    type Extrinsic = Extrinsic;

    type Header = Header;

    type Hash = Header::Hash;

    open spec fn spec_header(&self) -> Header {
        self.header
    }

    open spec fn spec_extrinsics(&self) -> Seq<Extrinsic> {
        self.extrinsics@
    }

    proof fn lemma_encoding_of_parts(block: Self) {
        assert(block.extrinsics.deep_view() =~= deep_seq(block.extrinsics@));
    }

    fn header(&self) -> (header: &Header) {
        &self.header
    }

    fn extrinsics(&self) -> (extrinsics: &[Extrinsic]) {
        self.extrinsics.as_slice()
    }

    fn deconstruct(self) -> (parts: (Header, Vec<Extrinsic>))
        ensures
            parts == self.parts(),
    {
        (self.header, self.extrinsics)
    }

    fn new(header: Header, extrinsics: Vec<Extrinsic>) -> (block: Self)
        ensures
            block == Self::from_parts(header, extrinsics),
    {
        Block { header, extrinsics }
    }

    fn encode_from(header: &Header, extrinsics: &[Extrinsic]) -> (bytes: Vec<u8>)
        ensures
            bytes@ == Self::encoding(
                BlockModel { header: header.deep_view(), extrinsics: extrinsics.deep_view() },
            ),
    {
        let mut bytes: Vec<u8> = Vec::new();
        header.encode_to(&mut bytes);
        encode_slice_to(extrinsics, &mut bytes);
        assert(bytes@ =~= pair_encoding::<Header, Vec<Extrinsic>>(
            header.deep_view(),
            extrinsics.deep_view(),
        ));
        bytes
    }
}

/// The bytes of a header followed by the bytes of a sequence of extrinsics
/// are the bytes of the block made of the two: writing the parts and writing
/// the block give the same bytes.
pub proof fn lemma_parts_encoding_is_block_encoding<Header: Encode, Extrinsic: Encode>(
    header: Header,
    extrinsics: Vec<Extrinsic>,
)
    ensures
        pair_encoding::<Header, Vec<Extrinsic>>(header.deep_view(), extrinsics.deep_view())
            == Block::<Header, Extrinsic>::encoding(
            Block::from_parts(header, extrinsics).deep_view(),
        ),
{
}

/// The order of the extrinsics is part of the block: two extrinsics the
/// other way round make another block, and one that `==` tells apart from
/// the first where it tells the two extrinsics apart.
pub proof fn lemma_order_matters<Header: PartialEq, Extrinsic: PartialEq>(
    x: Block<Header, Extrinsic>,
    y: Block<Header, Extrinsic>,
    a: Extrinsic,
    b: Extrinsic,
)
    requires
        x.extrinsics@ == seq![a, b],
        y.extrinsics@ == seq![b, a],
    ensures
        a != b ==> x != y,
        !a.eq_spec(&b) ==> !x.eq_spec(&y),
{
    assert(x.extrinsics@[0] == a && y.extrinsics@[0] == b);
}

/// Where `==` on headers and on extrinsics decides whether two values have
/// the same model, `==` on blocks does so too.
pub proof fn lemma_block_eq_is_model_eq<
    Header: PartialEq + DeepView,
    Extrinsic: PartialEq + DeepView,
>()
    requires
        obeys_deep_eq::<Header>(),
        obeys_deep_eq::<Extrinsic>(),
    ensures
        obeys_deep_eq::<Block<Header, Extrinsic>>(),
{
    reveal(obeys_deep_eq);
    assert forall|x: Block<Header, Extrinsic>, y: Block<Header, Extrinsic>|
        x.eq_spec(&y) <==> x.deep_view() == y.deep_view() by {
        let xs = x.extrinsics.deep_view();
        let ys = y.extrinsics.deep_view();
        if x.eq_spec(&y) {
            assert forall|i: int| 0 <= i < xs.len() implies xs[i] == ys[i] by {
                assert(x.extrinsics@[i].eq_spec(&y.extrinsics@[i]));
            }
            assert(xs =~= ys);
        }
        if x.deep_view() == y.deep_view() {
            assert(xs.len() == ys.len());
            assert forall|i: int| 0 <= i < x.extrinsics@.len() implies #[trigger] x.extrinsics@[i]
                .eq_spec(&y.extrinsics@[i]) by {
                assert(xs[i] == ys[i]);
            }
        }
    }
}

/// Reading a block that was written gives the block back, taking all the
/// bytes, when the limit leaves room for it; when it does not, the block is
/// refused for its size.
pub proof fn lemma_block_round_trip<Header: Decode, Extrinsic: Decode>(
    header: Header::V,
    extrinsics: Seq<Extrinsic::V>,
    limit: nat,
)
    requires
        Block::<Header, Extrinsic>::encodable(BlockModel { header, extrinsics }),
    ensures
        ({
            let block = BlockModel { header, extrinsics };
            let bytes = Block::<Header, Extrinsic>::encoding(block);
            let size = Block::<Header, Extrinsic>::heap_size(block);
            Block::<Header, Extrinsic>::parse(bytes, limit) == if size <= limit {
                Ok::<Parsed<BlockModel<Header::V, Extrinsic::V>>, DecodeError>(
                    Parsed { value: block, len: bytes.len(), mem: size },
                )
            } else {
                Err::<Parsed<BlockModel<Header::V, Extrinsic::V>>, DecodeError>(
                    DecodeError::ResourceExhausted,
                )
            }
        }),
{
    let block = BlockModel { header, extrinsics };
    Block::<Header, Extrinsic>::lemma_parse_encoding(block, Seq::empty(), limit);
    assert(Block::<Header, Extrinsic>::encoding(block) + Seq::<u8>::empty()
        =~= Block::<Header, Extrinsic>::encoding(block));
}

/// Two extrinsics the other way round give other bytes.
pub proof fn lemma_order_changes_encoding<Header: Decode, Extrinsic: Decode>(
    header: Header::V,
    a: Extrinsic::V,
    b: Extrinsic::V,
)
    requires
        a != b,
        Header::encodable(header),
        Extrinsic::encodable(a),
        Extrinsic::encodable(b),
    ensures
        Block::<Header, Extrinsic>::encoding(BlockModel { header, extrinsics: seq![a, b] })
            != Block::<Header, Extrinsic>::encoding(BlockModel { header, extrinsics: seq![b, a] }),
{
    let x = BlockModel { header, extrinsics: seq![a, b] };
    let y = BlockModel { header, extrinsics: seq![b, a] };
    assert(x.extrinsics[0] == a && y.extrinsics[0] == b);
    if Block::<Header, Extrinsic>::encoding(x) == Block::<Header, Extrinsic>::encoding(y) {
        lemma_encoding_injective::<Block<Header, Extrinsic>>(x, y);
    }
}

/// A block whose count of extrinsics asks for more room than the budget has
/// left after the header is refused for that count, whatever follows it and
/// however little.
pub proof fn lemma_block_oversized<Header: Decode, Extrinsic: Decode>(bytes: Seq<u8>, budget: nat)
    requires
        Header::parse(bytes, budget) matches Ok(h) && parse_compact(bytes.skip(h.len as int))
            matches Some((n, k)) && n * size_of::<Extrinsic>() > budget - h.mem,
    ensures
        Block::<Header, Extrinsic>::parse(bytes, budget) == Err::<
            Parsed<BlockModel<Header::V, Extrinsic::V>>,
            DecodeError,
        >(DecodeError::ResourceExhausted),
{
    Header::lemma_parse_canonical(bytes, budget);
}

} // verus!
