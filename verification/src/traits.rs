//! The capabilities that hashes, headers and blocks must offer.

use crate::codec::{Decode, Encode};
use crate::pair::pair_encoding;
use crate::sequence::seq_encodable;
use vstd::prelude::*;
use vstd::std_specs::cmp::PartialEqSpec;

verus! {

/// What every part of a block can do: be shown, compared, copied out and
/// hashed.
pub trait Member: Sized + core::fmt::Debug + Eq + PartialEq + Clone + core::hash::Hash {

}

impl<T: Sized + core::fmt::Debug + Eq + PartialEq + Clone + core::hash::Hash> Member for T {

}

/// A block hash: a small value that can be copied, compared and built by default.
///
/// The default value is reserved: it names the state before the first block.
pub trait HashOutput: Member + Copy + Default + Decode {
    /// The value that `Default::default()` returns.
    spec fn default_value() -> Self;

    /// `==` decides equality of values, and `default()` returns `default_value()`.
    proof fn lemma_hash_output()
        ensures
            Self::obeys_eq_spec(),
            forall|a: Self, b: Self| #[trigger] a.eq_spec(&b) <==> (a == b),
            forall|d: Self| #[trigger]
                call_ensures(<Self as Default>::default, (), d) ==> d == Self::default_value(),
    ;
}

/// A block header, as far as a block needs to know it.
pub trait Header: Member + Decode {
    /// The block's height.
    type Number: Member + Copy + Decode;

    /// The block's hash.
    type Hash: HashOutput;
}

/// The models of the items of `s`, in the same order.
pub open spec fn deep_seq<T: DeepView>(s: Seq<T>) -> Seq<T::V> {
    Seq::new(s.len(), |i: int| s[i].deep_view())
}

/// A block: a header and the extrinsics in the order in which they run.
pub trait Block: Member + Decode {
    /// One entry of the block's body.
    type Extrinsic: Member + Decode;

    /// The header.
    type Header: Header<Hash = Self::Hash>;

    /// The hash that names a block.
    type Hash: HashOutput;

    /// The header of the block.
    spec fn spec_header(&self) -> Self::Header;

    /// The extrinsics of the block, in order.
    spec fn spec_extrinsics(&self) -> Seq<Self::Extrinsic>;

    /// A block is written as its header followed by the sequence of its
    /// extrinsics: that is all its encoding holds.
    proof fn lemma_encoding_of_parts(block: Self)
        ensures
            Self::encoding(block.deep_view()) == pair_encoding::<
                Self::Header,
                Vec<Self::Extrinsic>,
            >(block.spec_header().deep_view(), deep_seq(block.spec_extrinsics())),
    ;

    /// The header.
    fn header(&self) -> (header: &Self::Header)
        ensures
            *header == self.spec_header(),
    ;

    /// The extrinsics, in order.
    fn extrinsics(&self) -> (extrinsics: &[Self::Extrinsic])
        ensures
            extrinsics@ == self.spec_extrinsics(),
    ;

    /// Takes the block apart into its header and its extrinsics.
    fn deconstruct(self) -> (parts: (Self::Header, Vec<Self::Extrinsic>))
        ensures
            parts.0 == self.spec_header(),
            parts.1@ == self.spec_extrinsics(),
    ;

    /// The block with this header and these extrinsics. Nothing is checked.
    fn new(header: Self::Header, extrinsics: Vec<Self::Extrinsic>) -> (block: Self)
        ensures
            block.spec_header() == header,
            block.spec_extrinsics() == extrinsics@,
    ;

    /// The bytes of the block with this header and these extrinsics, without
    /// building the block.
    fn encode_from(header: &Self::Header, extrinsics: &[Self::Extrinsic]) -> (bytes: Vec<u8>)
        requires
            Self::Header::encodable(header.deep_view()),
            seq_encodable::<Self::Extrinsic>(extrinsics.deep_view()),
        ensures
            bytes@ == pair_encoding::<Self::Header, Vec<Self::Extrinsic>>(
                header.deep_view(),
                extrinsics.deep_view(),
            ),
    ;
}

/// The height type of a block.
pub type NumberFor<B> = <<B as Block>::Header as Header>::Number;

} // verus!
