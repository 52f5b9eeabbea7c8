use vstd::prelude::*;
use std::collections::HashSet;
use crate::world::BlockPos;

verus! {

broadcast use vstd::std_specs::hash::group_hash_axioms;

/// Struct used to generate pre-defined groups of block in the world
pub struct Decorator {
    /// number of times this will be try to be spawn/chunks
    pub number_of_try: u32,
    /// the blocks allowed to be the start of the Decorator
    pub block_start_whitelist: HashSet<u16>,
    /// the pass of each block for the decorator
    pub pass: Vec<DecoratorPass>,
}

/// One kind of block of a decorator
pub struct DecoratorPass {
    /// the block type
    pub block_type: u16,
    /// list of the block that will no be replaced but will not block the structure to spawn
    pub block_non_blocking: HashSet<u16>,
    /// the blocks this block can replace
    pub block_whitelist: HashSet<u16>,
    /// the relative position of the block relative to the structure center
    pub block_pos: Vec<BlockPos>,
}

impl DecoratorPass {
    /// A pass of blocks of type `block_type` that may replace air and blocks of
    /// its own type, at no position yet
    pub fn new(block_type: u16) -> (p: DecoratorPass)
        ensures
            p.block_type == block_type,
            p.block_non_blocking@ == Set::<u16>::empty(),
            p.block_whitelist@ == set![0u16, block_type],
            p.block_pos@.len() == 0,
    {
        let mut block_whitelist = HashSet::new();
        block_whitelist.insert(0);
        block_whitelist.insert(block_type);
        DecoratorPass { block_type, block_non_blocking: HashSet::new(), block_whitelist, block_pos: Vec::new() }
    }
}

} // verus!
