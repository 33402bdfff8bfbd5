//! Blocks of a ledger: how a block is named, what it holds, and how it is
//! written to and read from bytes.
//!
//! - [`block_id`]: the name of a block, by hash or by height, and the name
//!   that stands for the state before the first block.
//! - [`block`]: a header and its extrinsics, in order.
//! - [`signed_block`]: a block with the proof that it is final, if any.
//! - [`codec`]: the byte codec and its memory budget; [`compact`],
//!   [`primitives`], [`pair`] and [`sequence`] hold its parts.
//! - [`traits`]: what a hash, a header and a block must offer; [`hash`] and
//!   [`header`] hold a plain hash and a plain header.
//! - [`schema`]: the fields of a block and of a signed block in text form.
//!
//! Every contract is stated over the model of a value: what the value is,
//! apart from how it lies in memory. Writing and reading are each other's
//! inverse on models, and two values have the same bytes only when they
//! have the same model.

pub mod block;
pub mod block_id;
pub mod codec;
pub mod compact;
pub mod hash;
pub mod header;
pub mod pair;
pub mod primitives;
pub mod schema;
pub mod sequence;
pub mod signed_block;
pub mod traits;

pub use block::Block;
pub use block_id::BlockId;
pub use signed_block::{Justifications, SignedBlock};
