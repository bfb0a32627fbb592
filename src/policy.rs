use vstd::prelude::*;

verus! {

/// The number of blocks in a batch; every batch ends with a macro block.
pub const BATCH_LENGTH: u32 = 32;

/// The height of the last macro block at or below `block_number`.
pub fn last_macro_block(block_number: u32) -> (r: u32)
    ensures
        r == block_number - block_number % BATCH_LENGTH,
        r <= block_number,
        r % BATCH_LENGTH == 0,
        block_number - r < BATCH_LENGTH,
{
    block_number - block_number % BATCH_LENGTH
}

} // verus!
