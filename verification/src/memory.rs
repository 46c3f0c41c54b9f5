//! The block of random integers that the memory-management demo fills and drops.
use vstd::prelude::*;
use crate::random::{thread_rng, random_i32_in};

verus! {

/// Number of integers in the demo's memory block.
pub const N: usize = 10;

/// Smallest value a cell of the block can hold.
pub const CELL_MIN: i32 = 1;

/// One past the largest value a cell of the block can hold.
pub const CELL_END: i32 = 100;

/// A block is well filled when it has `n` cells, each in `CELL_MIN..CELL_END`.
pub open spec fn filled_block(block: Seq<i32>, n: nat) -> bool {
    &&& block.len() == n
    &&& forall|i: int| 0 <= i < block.len() ==> CELL_MIN <= #[trigger] block[i] < CELL_END
}

/// Allocates a block of `n` cells (capacity `n`) and fills each with a random
/// integer drawn from `1..100`, in order.
pub fn fill_memory(n: usize) -> (block: Vec<i32>)
    ensures
        filled_block(block@, n as nat),
{
    let mut block: Vec<i32> = Vec::with_capacity(n);
    let mut rng = thread_rng();
    let mut i: usize = 0;
    while i < n
        invariant
            i <= n,
            filled_block(block@, i as nat),
        decreases n - i,
    {
        let value = random_i32_in(&mut rng, CELL_MIN, CELL_END);
        block.push(value);
        i = i + 1;
    }
    block
}

} // verus!
