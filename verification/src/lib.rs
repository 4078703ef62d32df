//! Extended mnemonic codec: represents an arbitrary-length binary secret as
//! one or more word phrases and reconstructs the exact original bytes,
//! including the amount of zero padding that was applied along the way.

use vstd::prelude::*;

mod block;
mod error;
mod fmt;
mod gen;
mod lang;
mod pad;
mod words;

pub use block::Block;
pub use error::SeedPhraserError;
pub use fmt::decode_hex;
pub use fmt::decode_payload;
pub use fmt::encode_hex;
pub use fmt::encode_payload;
pub use gen::AdvancedMnemonic;
pub use gen::lemma_parsed_byte_view;
pub use gen::lemma_text_round_trip;
pub use lang::IoFormat;
pub use lang::Language;
pub use lang::LanguageTool;
pub use pad::calculate_mnemonic_pad;
pub use pad::is_valid_length;
pub use pad::lemma_pad_reaches_valid;

verus! {

} // verus!
