//! Shared configuration values: sequence and batch sizes, special tokens.

use vstd::prelude::*;

verus! {

/// Maximum sequence length; tokenized inputs are padded or cut to this many ids.
pub const MAX_SEQ_LENGTH: usize = 128;

/// Number of examples grouped into one training batch.
pub const BATCH_SIZE: usize = 32;

/// The padding token as a character sequence.
pub open spec fn spec_pad_token() -> Seq<char> {
    "[PAD]"@
}

/// The unknown-word token as a character sequence.
pub open spec fn spec_unk_token() -> Seq<char> {
    "[UNK]"@
}

/// The padding token: appended to short sequences up to the maximum length.
pub fn pad_token() -> (r: &'static str)
    ensures
        r@ == spec_pad_token(),
{
    "[PAD]"
}

/// The unknown-word token: stands in for words outside the vocabulary.
pub fn unk_token() -> (r: &'static str)
    ensures
        r@ == spec_unk_token(),
{
    "[UNK]"
}

} // verus!
