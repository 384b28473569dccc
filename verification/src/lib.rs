//! A word-aligned, canonical, zero-copy encoding for exchanging structured
//! values between a host and a guest.
//!
//! Every buffer is a sequence of 32-bit words. A value owns a fixed region,
//! whose size its type alone decides, and may own payloads further on in the
//! buffer, which descriptors in the fixed region reach by relative offsets.
//! The same value always gives the same words, so a hash of the buffer is a
//! hash of the value.
use vstd::prelude::*;

pub mod util;
pub mod serialize;
pub mod deserialize;
pub mod tuples;
pub mod record;
pub mod laws;

pub use crate::deserialize::Deserialize;
pub use crate::deserialize::VecRef;
pub use crate::deserialize::VecRefIter;
pub use crate::serialize::serialize;
pub use crate::serialize::Alloc;
pub use crate::serialize::AllocBuf;
pub use crate::serialize::Serialize;

verus! {

/// Bytes in one word.
pub const WORD_SIZE: usize = 4;

/// Words in one padding block: every encoded buffer is a whole number of blocks.
pub const PAD_WORDS: usize = 8;

/// The two ways a fill pass can disagree with the sizes computed for it.
#[derive(Debug, Clone, Copy, PartialEq, Eq, Structural)]
pub enum GuestioError {
    /// More words were asked of the arena than it has left.
    AllocationSizeMismatch,
    /// A write or a sub-window does not fit the window it was made in.
    FillOverrun,
}

impl GuestioError {
    /// The message that goes with the error.
    pub fn message(&self) -> (s: &'static str)
        ensures
            s@.len() > 0,
            (*self == GuestioError::AllocationSizeMismatch) == (s@ == "Allocation size mismatch"@),
            (*self == GuestioError::FillOverrun) == (s@ == "Fill overrun"@),
    {
        proof {
            reveal_strlit("Allocation size mismatch");
            reveal_strlit("Fill overrun");
        }
        match self {
            GuestioError::AllocationSizeMismatch => "Allocation size mismatch",
            GuestioError::FillOverrun => "Fill overrun",
        }
    }
}

/// Words needed to hold `bytes` bytes: `bytes / 4`, rounded up.
pub open spec fn spec_align_bytes_to_words(bytes: nat) -> nat {
    (bytes + 3) / 4
}

/// Blocks needed to hold `words` words: `words / 8`, rounded up.
pub open spec fn spec_align_words_to_pads(words: nat) -> nat {
    (words + 7) / 8
}

/// Length of the padded buffer for a value of `words` words: the blocks that
/// hold the value and one reserved word after it.
pub open spec fn spec_pad_words(words: nat) -> nat {
    spec_align_words_to_pads(words + 1) * 8
}

pub fn align_bytes_to_words(bytes: usize) -> (words: usize)
    ensures
        words == spec_align_bytes_to_words(bytes as nat),
{
    if bytes % WORD_SIZE == 0 {
        bytes / WORD_SIZE
    } else {
        bytes / WORD_SIZE + 1
    }
}

pub fn align_words_to_pads(words: usize) -> (pads: usize)
    ensures
        pads == spec_align_words_to_pads(words as nat),
{
    if words % PAD_WORDS == 0 {
        words / PAD_WORDS
    } else {
        words / PAD_WORDS + 1
    }
}

/// The padded length for `words` words, or `None` where it does not fit in a
/// `usize`.
pub fn pad_words(words: usize) -> (padded: Option<usize>)
    ensures
        padded is Some <==> spec_pad_words(words as nat) <= usize::MAX,
        padded is Some ==> padded.unwrap() == spec_pad_words(words as nat),
{
    if words == usize::MAX {
        return None;
    }
    let pads: usize = align_words_to_pads(words + 1);
    pads.checked_mul(PAD_WORDS)
}

/// The padded length is a whole number of blocks, and leaves at least the
/// reserved word, and less than a block, after the value.
pub proof fn lemma_pad_words(words: nat)
    ensures
        spec_pad_words(words) % 8 == 0,
        words < spec_pad_words(words) <= words + 8,
{
}

} // verus!
